//! The snapshot format of the broker's metadata: the base directory, the
//! topics and their consumer groups, as one byte string with a version mark.
//!
//! ```text
//! snapshot := "LMQ" 0x01 text(base directory) u64(topic count) topic*
//! topic    := text(name) text(directory) u64(group count) group*
//! group    := text(name) u32(offset)
//! text     := u64(byte length) UTF-8 bytes
//! ```
//!
//! Integers are little-endian. The commit logs are no part of a snapshot.

use vstd::prelude::*;
use vstd::slice::slice_subrange;
use vstd::slice::slice_to_vec;
use vstd::utf8::{
    decode_utf8, encode_utf8, encode_utf8_decode_utf8, encode_utf8_valid_utf8, valid_utf8,
};
use crate::encoding::{
    le_u32, le_u64, lemma_u32_round_trip, lemma_u64_round_trip, u32_from_le_bytes, u32_le,
    u32_to_le_bytes, u64_from_le_bytes, u64_le, u64_to_le_bytes,
};
use crate::topic::{group_views, ConsumerGroup, DeserTopic, GroupView, TopicView};

verus! {

/// The broker's metadata as a mathematical value.
pub struct RegistryView {
    pub base_directory: Seq<char>,
    pub topics: Seq<TopicView>,
}

/// The metadata that a snapshot holds, decoded.
#[derive(Debug)]
pub struct Snapshot {
    pub base_directory: String,
    pub topics: Vec<DeserTopic>,
}

/// The values of a run of decoded topics.
pub open spec fn deser_views(topics: Seq<DeserTopic>) -> Seq<TopicView> {
    Seq::new(topics.len(), |i: int| topics[i]@)
}

impl View for Snapshot {
    type V = RegistryView;

    open spec fn view(&self) -> RegistryView {
        RegistryView { base_directory: self.base_directory@, topics: deser_views(self.topics@) }
    }
}

/// The four bytes that every snapshot starts with: the letters `LMQ` and the
/// version of the format.
pub open spec fn magic() -> Seq<u8> {
    seq![76u8, 77u8, 81u8, 1u8]
}

/// The encoding of a text.
pub open spec fn encode_text(text: Seq<char>) -> Seq<u8> {
    u64_le(encode_utf8(text).len() as u64) + encode_utf8(text)
}

/// The encoding of a consumer group.
pub open spec fn encode_group(group: GroupView) -> Seq<u8> {
    encode_text(group.name) + u32_le(group.offset)
}

/// The encoding of a run of consumer groups, one after the other.
pub open spec fn encode_groups(groups: Seq<GroupView>) -> Seq<u8>
    decreases groups.len(),
{
    if groups.len() == 0 {
        Seq::empty()
    } else {
        encode_group(groups[0]) + encode_groups(groups.skip(1))
    }
}

/// The encoding of a topic.
pub open spec fn encode_topic(topic: TopicView) -> Seq<u8> {
    encode_text(topic.name) + encode_text(topic.directory) + u64_le(topic.groups.len() as u64)
        + encode_groups(topic.groups)
}

/// The encoding of a run of topics, one after the other.
pub open spec fn encode_topics(topics: Seq<TopicView>) -> Seq<u8>
    decreases topics.len(),
{
    if topics.len() == 0 {
        Seq::empty()
    } else {
        encode_topic(topics[0]) + encode_topics(topics.skip(1))
    }
}

/// The snapshot of a registry.
pub open spec fn encode_snapshot(registry: RegistryView) -> Seq<u8> {
    magic() + encode_text(registry.base_directory) + u64_le(registry.topics.len() as u64)
        + encode_topics(registry.topics)
}

/// A 32-bit integer at the front of `bytes`, and what follows it.
pub open spec fn parse_u32(bytes: Seq<u8>) -> Option<(u32, Seq<u8>)> {
    if bytes.len() >= 4 {
        Some((le_u32(bytes.subrange(0, 4)) as u32, bytes.skip(4)))
    } else {
        None
    }
}

/// A 64-bit integer at the front of `bytes`, and what follows it.
pub open spec fn parse_u64(bytes: Seq<u8>) -> Option<(u64, Seq<u8>)> {
    if bytes.len() >= 8 {
        Some((le_u64(bytes.subrange(0, 8)) as u64, bytes.skip(8)))
    } else {
        None
    }
}

/// A text at the front of `bytes`, and what follows it. There is none where
/// the bytes end early or the text is not valid UTF-8.
pub open spec fn parse_text(bytes: Seq<u8>) -> Option<(Seq<char>, Seq<u8>)> {
    match parse_u64(bytes) {
        None => None,
        Some((len, rest)) => if rest.len() >= len && valid_utf8(rest.take(len as int)) {
            Some((decode_utf8(rest.take(len as int)), rest.skip(len as int)))
        } else {
            None
        },
    }
}

/// A consumer group at the front of `bytes`, and what follows it.
pub open spec fn parse_group(bytes: Seq<u8>) -> Option<(GroupView, Seq<u8>)> {
    match parse_text(bytes) {
        None => None,
        Some((name, rest)) => match parse_u32(rest) {
            None => None,
            Some((offset, rest)) => Some((GroupView { name, offset }, rest)),
        },
    }
}

/// `count` consumer groups at the front of `bytes`, and what follows them.
pub open spec fn parse_groups(bytes: Seq<u8>, count: nat) -> Option<(Seq<GroupView>, Seq<u8>)>
    decreases count,
{
    if count == 0 {
        Some((Seq::empty(), bytes))
    } else {
        match parse_group(bytes) {
            None => None,
            Some((group, rest)) => match parse_groups(rest, (count - 1) as nat) {
                None => None,
                Some((groups, rest)) => Some((seq![group] + groups, rest)),
            },
        }
    }
}

/// A topic at the front of `bytes`, and what follows it.
pub open spec fn parse_topic(bytes: Seq<u8>) -> Option<(TopicView, Seq<u8>)> {
    match parse_text(bytes) {
        None => None,
        Some((name, rest)) => match parse_text(rest) {
            None => None,
            Some((directory, rest)) => match parse_u64(rest) {
                None => None,
                Some((count, rest)) => match parse_groups(rest, count as nat) {
                    None => None,
                    Some((groups, rest)) => Some((TopicView { name, directory, groups }, rest)),
                },
            },
        },
    }
}

/// `count` topics at the front of `bytes`, and what follows them.
pub open spec fn parse_topics(bytes: Seq<u8>, count: nat) -> Option<(Seq<TopicView>, Seq<u8>)>
    decreases count,
{
    if count == 0 {
        Some((Seq::empty(), bytes))
    } else {
        match parse_topic(bytes) {
            None => None,
            Some((topic, rest)) => match parse_topics(rest, (count - 1) as nat) {
                None => None,
                Some((topics, rest)) => Some((seq![topic] + topics, rest)),
            },
        }
    }
}

/// The registry that a snapshot states. There is none where the bytes do not
/// start with the version mark, end early, hold text that is not valid
/// UTF-8, or go on after the last topic.
pub open spec fn parse_snapshot(bytes: Seq<u8>) -> Option<RegistryView> {
    if bytes.len() >= 4 && bytes.take(4) == magic() {
        match parse_text(bytes.skip(4)) {
            None => None,
            Some((base_directory, rest)) => match parse_u64(rest) {
                None => None,
                Some((count, rest)) => match parse_topics(rest, count as nat) {
                    None => None,
                    Some((topics, rest)) => if rest.len() == 0 {
                        Some(RegistryView { base_directory, topics })
                    } else {
                        None
                    },
                },
            },
        }
    } else {
        None
    }
}

/// Whether the lengths in a text can be written down in the format.
#[verifier::opaque]
pub open spec fn text_fits(text: Seq<char>) -> bool {
    encode_utf8(text).len() <= u64::MAX
}

/// Whether the lengths in a run of groups can be written down in the format.
pub open spec fn groups_fit(groups: Seq<GroupView>) -> bool {
    &&& groups.len() <= u64::MAX
    &&& forall|i: int| 0 <= i < groups.len() ==> text_fits((#[trigger] groups[i]).name)
}

/// Whether the lengths in a topic can be written down in the format.
pub open spec fn topic_fits(topic: TopicView) -> bool {
    &&& text_fits(topic.name)
    &&& text_fits(topic.directory)
    &&& groups_fit(topic.groups)
}

/// Whether the lengths in a registry can be written down in the format, as
/// they can for every registry that fits in memory.
pub open spec fn registry_fits(registry: RegistryView) -> bool {
    &&& text_fits(registry.base_directory)
    &&& registry.topics.len() <= u64::MAX
    &&& forall|i: int| 0 <= i < registry.topics.len() ==> topic_fits(#[trigger] registry.topics[i])
}

/// Joining three byte strings gives the same whichever two are joined first.
pub proof fn lemma_join_associates(a: Seq<u8>, b: Seq<u8>, c: Seq<u8>)
    ensures
        (a + b) + c == a + (b + c),
{
    assert((a + b) + c =~= a + (b + c));
}

/// An encoded 32-bit integer, followed by anything, reads back.
pub proof fn lemma_parse_u32(value: u32, rest: Seq<u8>)
    ensures
        parse_u32(u32_le(value) + rest) == Some((value, rest)),
{
    let bytes = u32_le(value) + rest;
    lemma_u32_round_trip(value);
    assert(bytes.subrange(0, 4) =~= u32_le(value));
    assert(bytes.skip(4) =~= rest);
}

/// An encoded 64-bit integer, followed by anything, reads back.
pub proof fn lemma_parse_u64(value: u64, rest: Seq<u8>)
    ensures
        parse_u64(u64_le(value) + rest) == Some((value, rest)),
{
    let bytes = u64_le(value) + rest;
    lemma_u64_round_trip(value);
    assert(bytes.subrange(0, 8) =~= u64_le(value));
    assert(bytes.skip(8) =~= rest);
}

/// An encoded text, followed by anything, reads back.
pub proof fn lemma_parse_text(text: Seq<char>, rest: Seq<u8>)
    requires
        text_fits(text),
    ensures
        parse_text(encode_text(text) + rest) == Some((text, rest)),
{
    reveal(text_fits);
    let body = encode_utf8(text);
    lemma_join_associates(u64_le(body.len() as u64), body, rest);
    lemma_parse_u64(body.len() as u64, body + rest);
    assert((body + rest).take(body.len() as int) =~= body);
    assert((body + rest).skip(body.len() as int) =~= rest);
    encode_utf8_valid_utf8(text);
    encode_utf8_decode_utf8(text);
}

/// An encoded consumer group, followed by anything, reads back.
pub proof fn lemma_parse_group(group: GroupView, rest: Seq<u8>)
    requires
        text_fits(group.name),
    ensures
        parse_group(encode_group(group) + rest) == Some((group, rest)),
{
    lemma_join_associates(encode_text(group.name), u32_le(group.offset), rest);
    lemma_parse_text(group.name, u32_le(group.offset) + rest);
    lemma_parse_u32(group.offset, rest);
}

/// An encoded run of consumer groups, followed by anything, reads back.
pub proof fn lemma_parse_groups(groups: Seq<GroupView>, rest: Seq<u8>)
    requires
        groups_fit(groups),
    ensures
        parse_groups(encode_groups(groups) + rest, groups.len()) == Some((groups, rest)),
    decreases groups.len(),
{
    if groups.len() > 0 {
        let tail = groups.skip(1);
        lemma_join_associates(encode_group(groups[0]), encode_groups(tail), rest);
        lemma_parse_group(groups[0], encode_groups(tail) + rest);
        assert forall|i: int| 0 <= i < tail.len() implies text_fits((#[trigger] tail[i]).name) by {
            assert(tail[i] == groups[i + 1]);
        }
        lemma_parse_groups(tail, rest);
        assert(seq![groups[0]] + tail =~= groups);
    } else {
        assert(encode_groups(groups) + rest =~= rest);
        assert(groups =~= Seq::<GroupView>::empty());
    }
}

/// An encoded topic, followed by anything, reads back.
pub proof fn lemma_parse_topic(topic: TopicView, rest: Seq<u8>)
    requires
        topic_fits(topic),
    ensures
        parse_topic(encode_topic(topic) + rest) == Some((topic, rest)),
{
    let name = encode_text(topic.name);
    let directory = encode_text(topic.directory);
    let count = u64_le(topic.groups.len() as u64);
    let groups = encode_groups(topic.groups);
    let after_name = directory + (count + (groups + rest));
    lemma_join_associates(name + directory + count, groups, rest);
    lemma_join_associates(name + directory, count, groups + rest);
    lemma_join_associates(name, directory, count + (groups + rest));
    lemma_parse_text(topic.name, after_name);
    lemma_parse_text(topic.directory, count + (groups + rest));
    lemma_parse_u64(topic.groups.len() as u64, groups + rest);
    lemma_parse_groups(topic.groups, rest);
}

/// An encoded run of topics, followed by anything, reads back.
pub proof fn lemma_parse_topics(topics: Seq<TopicView>, rest: Seq<u8>)
    requires
        forall|i: int| 0 <= i < topics.len() ==> topic_fits(#[trigger] topics[i]),
    ensures
        parse_topics(encode_topics(topics) + rest, topics.len()) == Some((topics, rest)),
    decreases topics.len(),
{
    if topics.len() > 0 {
        let tail = topics.skip(1);
        lemma_join_associates(encode_topic(topics[0]), encode_topics(tail), rest);
        lemma_parse_topic(topics[0], encode_topics(tail) + rest);
        assert forall|i: int| 0 <= i < tail.len() implies topic_fits(#[trigger] tail[i]) by {
            assert(tail[i] == topics[i + 1]);
        }
        lemma_parse_topics(tail, rest);
        assert(seq![topics[0]] + tail =~= topics);
    } else {
        assert(encode_topics(topics) + rest =~= rest);
        assert(topics =~= Seq::<TopicView>::empty());
    }
}

/// Decoding the snapshot of a registry gives the registry: the same base
/// directory, and the same topics with the same names, directories and
/// consumer groups, each group with its name and offset.
pub proof fn lemma_snapshot_round_trip(registry: RegistryView)
    requires
        registry_fits(registry),
    ensures
        parse_snapshot(encode_snapshot(registry)) == Some(registry),
{
    let bytes = encode_snapshot(registry);
    let count = u64_le(registry.topics.len() as u64);
    let topics = encode_topics(registry.topics);
    let base = encode_text(registry.base_directory);
    let body = base + (count + (topics + Seq::<u8>::empty()));
    assert(topics + Seq::<u8>::empty() =~= topics);
    lemma_join_associates(magic() + base, count, topics);
    lemma_join_associates(magic(), base, count + topics);
    assert(bytes == magic() + body);
    assert(bytes.take(4) =~= magic());
    assert(bytes.skip(4) =~= body);
    lemma_parse_text(registry.base_directory, count + (topics + Seq::<u8>::empty()));
    lemma_parse_u64(registry.topics.len() as u64, topics + Seq::<u8>::empty());
    lemma_parse_topics(registry.topics, Seq::<u8>::empty());
}

/// Calls `String::from_utf8`, which gives the text that the bytes encode
/// where they are valid UTF-8 and an error where they are not; the error is
/// dropped.
#[verifier::external_body]
fn text_from_utf8(bytes: Vec<u8>) -> (text: Option<String>)
    ensures
        text is Some <==> valid_utf8(bytes@),
        text is Some ==> text->Some_0@ == decode_utf8(bytes@),
{
    String::from_utf8(bytes).ok()
}

/// Appends `source` to `out`.
pub fn append_bytes(out: &mut Vec<u8>, source: &[u8])
    ensures
        final(out)@ == old(out)@ + source@,
{
    let len: usize = source.len();
    let mut at: usize = 0;
    while at < len
        invariant
            at <= len,
            len == source@.len(),
            out@ == old(out)@ + source@.take(at as int),
        decreases len - at,
    {
        out.push(source[at]);
        assert(source@.take(at + 1) =~= source@.take(at as int).push(source@[at as int]));
        at = at + 1;
    }
    assert(source@.take(at as int) =~= source@);
}

/// Appends the encoding of `text` to `out`.
fn write_text(out: &mut Vec<u8>, text: &str)
    ensures
        final(out)@ == old(out)@ + encode_text(text@),
        text_fits(text@),
{
    proof {
        reveal(text_fits);
    }
    let body = text.as_bytes();
    let len = u64_to_le_bytes(body.len() as u64);
    append_bytes(out, len.as_slice());
    append_bytes(out, body);
    assert(out@ =~= old(out)@ + encode_text(text@));
}

/// Appends the encoding of `groups` to `out`.
fn write_groups(out: &mut Vec<u8>, groups: &Vec<ConsumerGroup>)
    ensures
        final(out)@ == old(out)@ + encode_groups(group_views(groups@)),
        groups_fit(group_views(groups@)),
{
    let ghost all = group_views(groups@);
    let count: usize = groups.len();
    let mut at: usize = 0;
    assert(all.skip(0) =~= all);
    while at < count
        invariant
            at <= count,
            count == groups@.len(),
            all == group_views(groups@),
            out@ + encode_groups(all.skip(at as int)) == old(out)@ + encode_groups(all),
            forall|i: int| 0 <= i < at ==> text_fits((#[trigger] all[i]).name),
        decreases count - at,
    {
        let group = &groups[at];
        let ghost before = out@;
        let ghost tail = all.skip(at as int);
        assert(tail[0] == group@);
        assert(tail.skip(1) =~= all.skip(at + 1));
        write_text(out, group.name.as_str());
        let offset = u32_to_le_bytes(group.offset);
        append_bytes(out, offset.as_slice());
        assert(out@ + encode_groups(all.skip(at + 1)) =~= before + encode_groups(tail));
        at = at + 1;
    }
    assert(encode_groups(all.skip(at as int)) =~= Seq::<u8>::empty());
    assert(out@ =~= old(out)@ + encode_groups(all));
}

/// Appends the encoding of a topic with the given parts to `out`.
pub fn write_topic(out: &mut Vec<u8>, name: &str, directory: &str, groups: &Vec<ConsumerGroup>)
    ensures
        final(out)@ == old(out)@ + encode_topic(
            TopicView { name: name@, directory: directory@, groups: group_views(groups@) },
        ),
        topic_fits(TopicView { name: name@, directory: directory@, groups: group_views(groups@) }),
{
    write_text(out, name);
    write_text(out, directory);
    let count = u64_to_le_bytes(groups.len() as u64);
    append_bytes(out, count.as_slice());
    write_groups(out, groups);
    assert(out@ =~= old(out)@ + encode_topic(
        TopicView { name: name@, directory: directory@, groups: group_views(groups@) },
    ));
}

/// Starts a snapshot: the version mark, the base directory and the number of
/// topics. The topics follow, each written by `write_topic`.
pub fn write_header(base_directory: &str, topics: usize) -> (out: Vec<u8>)
    ensures
        out@ == magic() + encode_text(base_directory@) + u64_le(topics as u64),
        text_fits(base_directory@),
{
    let mut out: Vec<u8> = Vec::new();
    out.push(76);
    out.push(77);
    out.push(81);
    out.push(1);
    assert(out@ =~= magic());
    write_text(&mut out, base_directory);
    let count = u64_to_le_bytes(topics as u64);
    append_bytes(&mut out, count.as_slice());
    out
}

/// Reads a 32-bit integer at `at`.
fn read_u32(bytes: &[u8], at: usize) -> (r: Option<(u32, usize)>)
    requires
        at <= bytes@.len(),
    ensures
        match r {
            Some((value, next)) => next == at + 4 && next <= bytes@.len() && parse_u32(
                bytes@.skip(at as int),
            ) == Some((value, bytes@.skip(next as int))),
            None => parse_u32(bytes@.skip(at as int)) is None,
        },
{
    if bytes.len() - at < 4 {
        return None;
    }
    let value = u32_from_le_bytes(bytes, at);
    proof {
        let tail = bytes@.skip(at as int);
        assert(tail.subrange(0, 4) =~= bytes@.subrange(at as int, at + 4));
        assert(tail.skip(4) =~= bytes@.skip(at + 4));
    }
    Some((value, at + 4))
}

/// Reads a 64-bit integer at `at`.
fn read_u64(bytes: &[u8], at: usize) -> (r: Option<(u64, usize)>)
    requires
        at <= bytes@.len(),
    ensures
        match r {
            Some((value, next)) => next == at + 8 && next <= bytes@.len() && parse_u64(
                bytes@.skip(at as int),
            ) == Some((value, bytes@.skip(next as int))),
            None => parse_u64(bytes@.skip(at as int)) is None,
        },
{
    if bytes.len() - at < 8 {
        return None;
    }
    let value = u64_from_le_bytes(bytes, at);
    proof {
        let tail = bytes@.skip(at as int);
        assert(tail.subrange(0, 8) =~= bytes@.subrange(at as int, at + 8));
        assert(tail.skip(8) =~= bytes@.skip(at + 8));
    }
    Some((value, at + 8))
}

/// Reads a text at `at`.
fn read_text(bytes: &[u8], at: usize) -> (r: Option<(String, usize)>)
    requires
        at <= bytes@.len(),
    ensures
        match r {
            Some((text, next)) => at <= next <= bytes@.len() && parse_text(bytes@.skip(at as int))
                == Some((text@, bytes@.skip(next as int))),
            None => parse_text(bytes@.skip(at as int)) is None,
        },
{
    let (len, start) = match read_u64(bytes, at) {
        Some(found) => found,
        None => {
            return None;
        },
    };
    if ((bytes.len() - start) as u64) < len {
        proof {
            assert(bytes@.skip(start as int).len() == bytes@.len() - start);
        }
        return None;
    }
    let end: usize = start + len as usize;
    let body = slice_to_vec(slice_subrange(bytes, start, end));
    proof {
        let rest = bytes@.skip(start as int);
        assert(rest.take(len as int) =~= bytes@.subrange(start as int, end as int));
        assert(rest.skip(len as int) =~= bytes@.skip(end as int));
    }
    match text_from_utf8(body) {
        Some(text) => Some((text, end)),
        None => None,
    }
}

/// Reads a consumer group at `at`.
fn read_group(bytes: &[u8], at: usize) -> (r: Option<(ConsumerGroup, usize)>)
    requires
        at <= bytes@.len(),
    ensures
        match r {
            Some((group, next)) => at <= next <= bytes@.len() && parse_group(
                bytes@.skip(at as int),
            ) == Some((group@, bytes@.skip(next as int))),
            None => parse_group(bytes@.skip(at as int)) is None,
        },
{
    let (name, after_name) = match read_text(bytes, at) {
        Some(found) => found,
        None => {
            return None;
        },
    };
    let (offset, next) = match read_u32(bytes, after_name) {
        Some(found) => found,
        None => {
            return None;
        },
    };
    Some((ConsumerGroup { name, offset }, next))
}

/// What reading `count` groups gives where `done` have been read already and
/// `more` is what reading the others gives.
pub open spec fn groups_joined(done: Seq<GroupView>, more: Option<(Seq<GroupView>, Seq<u8>)>)
    -> Option<(Seq<GroupView>, Seq<u8>)> {
    match more {
        None => None,
        Some((groups, rest)) => Some((done + groups, rest)),
    }
}

/// Reads `count` consumer groups at `at`.
fn read_groups(bytes: &[u8], at: usize, count: u64) -> (r: Option<(Vec<ConsumerGroup>, usize)>)
    requires
        at <= bytes@.len(),
    ensures
        match r {
            Some((groups, next)) => at <= next <= bytes@.len() && parse_groups(
                bytes@.skip(at as int),
                count as nat,
            ) == Some((group_views(groups@), bytes@.skip(next as int))),
            None => parse_groups(bytes@.skip(at as int), count as nat) is None,
        },
{
    let mut groups: Vec<ConsumerGroup> = Vec::new();
    let mut cursor: usize = at;
    let mut left: u64 = count;
    let ghost whole = parse_groups(bytes@.skip(at as int), count as nat);
    assert(Seq::<GroupView>::empty() + Seq::<GroupView>::empty() =~= Seq::<GroupView>::empty());
    assert(group_views(groups@) =~= Seq::<GroupView>::empty());
    assert(whole == groups_joined(group_views(groups@), whole)) by {
        if let Some((found, rest)) = whole {
            assert(Seq::<GroupView>::empty() + found =~= found);
        }
    }
    while left > 0
        invariant
            at <= cursor <= bytes@.len(),
            whole == parse_groups(bytes@.skip(at as int), count as nat),
            whole == groups_joined(
                group_views(groups@),
                parse_groups(bytes@.skip(cursor as int), left as nat),
            ),
        decreases left,
    {
        let ghost done = group_views(groups@);
        let (group, next) = match read_group(bytes, cursor) {
            Some(found) => found,
            None => {
                return None;
            },
        };
        groups.push(group);
        proof {
            assert(group_views(groups@) =~= done.push(group@));
            let more = parse_groups(bytes@.skip(next as int), (left - 1) as nat);
            if let Some((found, rest)) = more {
                assert(done + (seq![group@] + found) =~= done.push(group@) + found);
            }
        }
        cursor = next;
        left = left - 1;
    }
    proof {
        assert(group_views(groups@) + Seq::<GroupView>::empty() =~= group_views(groups@));
    }
    Some((groups, cursor))
}

/// Reads a topic at `at`.
fn read_topic(bytes: &[u8], at: usize) -> (r: Option<(DeserTopic, usize)>)
    requires
        at <= bytes@.len(),
    ensures
        match r {
            Some((topic, next)) => at <= next <= bytes@.len() && parse_topic(
                bytes@.skip(at as int),
            ) == Some((topic@, bytes@.skip(next as int))),
            None => parse_topic(bytes@.skip(at as int)) is None,
        },
{
    let (name, after_name) = match read_text(bytes, at) {
        Some(found) => found,
        None => {
            return None;
        },
    };
    let (directory, after_directory) = match read_text(bytes, after_name) {
        Some(found) => found,
        None => {
            return None;
        },
    };
    let (count, after_count) = match read_u64(bytes, after_directory) {
        Some(found) => found,
        None => {
            return None;
        },
    };
    let (consumer_groups, next) = match read_groups(bytes, after_count, count) {
        Some(found) => found,
        None => {
            return None;
        },
    };
    Some((DeserTopic { name, directory, consumer_groups }, next))
}

/// What reading `count` topics gives where `done` have been read already and
/// `more` is what reading the others gives.
pub open spec fn topics_joined(done: Seq<TopicView>, more: Option<(Seq<TopicView>, Seq<u8>)>)
    -> Option<(Seq<TopicView>, Seq<u8>)> {
    match more {
        None => None,
        Some((topics, rest)) => Some((done + topics, rest)),
    }
}

/// Reads `count` topics at `at`.
fn read_topics(bytes: &[u8], at: usize, count: u64) -> (r: Option<(Vec<DeserTopic>, usize)>)
    requires
        at <= bytes@.len(),
    ensures
        match r {
            Some((topics, next)) => at <= next <= bytes@.len() && parse_topics(
                bytes@.skip(at as int),
                count as nat,
            ) == Some((deser_views(topics@), bytes@.skip(next as int))),
            None => parse_topics(bytes@.skip(at as int), count as nat) is None,
        },
{
    let mut topics: Vec<DeserTopic> = Vec::new();
    let mut cursor: usize = at;
    let mut left: u64 = count;
    let ghost whole = parse_topics(bytes@.skip(at as int), count as nat);
    assert(deser_views(topics@) =~= Seq::<TopicView>::empty());
    assert(whole == topics_joined(deser_views(topics@), whole)) by {
        if let Some((found, rest)) = whole {
            assert(Seq::<TopicView>::empty() + found =~= found);
        }
    }
    while left > 0
        invariant
            at <= cursor <= bytes@.len(),
            whole == parse_topics(bytes@.skip(at as int), count as nat),
            whole == topics_joined(
                deser_views(topics@),
                parse_topics(bytes@.skip(cursor as int), left as nat),
            ),
        decreases left,
    {
        let ghost done = deser_views(topics@);
        let (topic, next) = match read_topic(bytes, cursor) {
            Some(found) => found,
            None => {
                return None;
            },
        };
        topics.push(topic);
        proof {
            assert(deser_views(topics@) =~= done.push(topic@));
            let more = parse_topics(bytes@.skip(next as int), (left - 1) as nat);
            if let Some((found, rest)) = more {
                assert(done + (seq![topic@] + found) =~= done.push(topic@) + found);
            }
        }
        cursor = next;
        left = left - 1;
    }
    proof {
        assert(deser_views(topics@) + Seq::<TopicView>::empty() =~= deser_views(topics@));
    }
    Some((topics, cursor))
}

/// Decodes a snapshot; `None` where the bytes are no snapshot.
pub fn decode_snapshot(bytes: &[u8]) -> (r: Option<Snapshot>)
    ensures
        match r {
            Some(snapshot) => parse_snapshot(bytes@) == Some(snapshot@),
            None => parse_snapshot(bytes@) is None,
        },
{
    if bytes.len() < 4 {
        return None;
    }
    if bytes[0] != 76 || bytes[1] != 77 || bytes[2] != 81 || bytes[3] != 1 {
        assert(bytes@.take(4)[0] == bytes@[0]);
        assert(bytes@.take(4)[1] == bytes@[1]);
        assert(bytes@.take(4)[2] == bytes@[2]);
        assert(bytes@.take(4)[3] == bytes@[3]);
        return None;
    }
    assert(bytes@.take(4) =~= magic());
    let (base_directory, after_base) = match read_text(bytes, 4) {
        Some(found) => found,
        None => {
            return None;
        },
    };
    let (count, after_count) = match read_u64(bytes, after_base) {
        Some(found) => found,
        None => {
            return None;
        },
    };
    let (topics, end) = match read_topics(bytes, after_count, count) {
        Some(found) => found,
        None => {
            return None;
        },
    };
    if end != bytes.len() {
        return None;
    }
    Some(Snapshot { base_directory, topics })
}

} // verus!
