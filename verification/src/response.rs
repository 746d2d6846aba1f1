//! The text that shows a response of the broker to a reader: one heading,
//! then one line for each thing the response states.

use vstd::prelude::*;
use vstd::string::StringExecFns;
use crate::utils::{digit_char, digit_text};

verus! {

/// One topic in the list of all topics.
#[derive(Debug)]
pub struct TopicListing {
    pub topic_name: String,
    pub consumer_groups: Vec<String>,
}

/// One record of a consume response.
#[derive(Debug)]
pub struct Message {
    pub key: Vec<u8>,
    pub value: Vec<u8>,
    pub timestamp: u64,
}

/// What a topic response answers.
#[derive(Debug)]
pub enum TopicResponse {
    Create,
    Describe { max_retention_bytes: u64, max_segment_bytes: u64, consumer_groups: Vec<String> },
    Delete,
    All { topics: Vec<TopicListing> },
}

/// A message of the wire format, decoded.
#[derive(Debug)]
pub enum Envelope {
    TopicResponse { topic_name: String, success: bool, response: TopicResponse },
    ProduceResponse { topic_name: String, success: bool, offset: u64 },
    ConsumeResponse { topic_name: String, success: bool, messages: Vec<Message> },
    InvalidResponse { error_message: String },
    TopicRequest,
    ConsumeRequest,
    ProduceRequest,
    /// A message of a kind that the schema does not know.
    NotInSchema,
}

/// What `{:?}` prints for a text: the text between double quotes, with the
/// characters escaped that Rust escapes there.
pub uninterp spec fn debug_text(text: Seq<char>) -> Seq<char>;

/// Formats a text with `format!` and `{:?}`, the `Debug` form of `str`.
#[verifier::external_body]
fn debug_of_text(text: &str) -> (out: String)
    ensures
        out@ == debug_text(text@),
{
    format!("{:?}", text)
}

/// The text of a truth value.
pub open spec fn bool_text(value: bool) -> Seq<char> {
    if value {
        "true"@
    } else {
        "false"@
    }
}

/// The text of a number in base ten, without leading zeros.
pub open spec fn decimal(value: nat) -> Seq<char>
    decreases value,
{
    if value < 10 {
        seq![digit_char(value as int)]
    } else {
        decimal(value / 10).push(digit_char((value % 10) as int))
    }
}

/// The items with a comma and a space between each two.
pub open spec fn joined(items: Seq<Seq<char>>) -> Seq<char>
    decreases items.len(),
{
    if items.len() == 0 {
        Seq::empty()
    } else if items.len() == 1 {
        items[0]
    } else {
        joined(items.drop_last()) + ", "@ + items.last()
    }
}

/// The items as a list: between square brackets, with a comma and a space
/// between each two.
pub open spec fn list_text(items: Seq<Seq<char>>) -> Seq<char> {
    "["@ + joined(items) + "]"@
}

/// The texts of a run of strings.
pub open spec fn texts(items: Seq<String>) -> Seq<Seq<char>> {
    Seq::new(items.len(), |i: int| items[i]@)
}

/// A run of bytes as a list of numbers.
pub open spec fn bytes_text(bytes: Seq<u8>) -> Seq<char> {
    list_text(Seq::new(bytes.len(), |i: int| decimal(bytes[i] as nat)))
}

/// A run of names as a list of quoted texts.
pub open spec fn names_text(names: Seq<String>) -> Seq<char> {
    list_text(Seq::new(names.len(), |i: int| debug_text(names[i]@)))
}

/// One record of a consume response in words.
pub open spec fn message_text(message: Message) -> Seq<char> {
    "Key: "@ + bytes_text(message.key@) + ",Value: "@ + bytes_text(message.value@)
        + ", Timestamp: "@ + decimal(message.timestamp as nat)
}

/// The records of a consume response as a list of quoted texts.
pub open spec fn messages_text(messages: Seq<Message>) -> Seq<char> {
    list_text(Seq::new(messages.len(), |i: int| debug_text(message_text(messages[i]))))
}

/// The line that names the topic.
pub open spec fn name_line(topic_name: Seq<char>) -> Seq<char> {
    "Topic Name: "@ + topic_name + "\n"@
}

/// The line that says whether the request succeeded.
pub open spec fn status_line(success: bool) -> Seq<char> {
    "Status: "@ + bool_text(success) + "\n"@
}

/// The line of one topic in the list of all topics.
pub open spec fn listing_line(listing: TopicListing) -> Seq<char> {
    "Topic Name: "@ + listing.topic_name@ + ", consumer groups: "@ + names_text(
        listing.consumer_groups@,
    ) + "\n"@
}

/// The lines of the topics in the list of all topics.
pub open spec fn listing_lines(listings: Seq<TopicListing>) -> Seq<char>
    decreases listings.len(),
{
    if listings.len() == 0 {
        Seq::empty()
    } else {
        listing_lines(listings.drop_last()) + listing_line(listings.last())
    }
}

/// The text of a topic response.
pub open spec fn topic_response_text(topic_name: Seq<char>, success: bool, response: TopicResponse)
    -> Seq<char> {
    match response {
        TopicResponse::Create => "Topic Create Response ------------\n"@ + name_line(topic_name)
            + status_line(success),
        TopicResponse::Describe { max_retention_bytes, max_segment_bytes, consumer_groups } =>
            "Topic Describe Response ------------\n"@ + name_line(topic_name) + status_line(
                success,
            ) + "Topic max retention bytes: "@ + decimal(max_retention_bytes as nat)
                + ", max segments bytes: "@ + decimal(max_segment_bytes as nat)
                + ", consumer groups: "@ + names_text(consumer_groups@) + "\n"@,
        TopicResponse::Delete => "Topic Delete Response ------------\n"@ + name_line(topic_name)
            + status_line(success),
        TopicResponse::All { topics } => "Topic All Response ------------\n"@ + status_line(
            success,
        ) + listing_lines(topics@),
    }
}

/// The text that shows a message to a reader. A request is no response and
/// is shown as such.
pub open spec fn response_text(envelope: Envelope) -> Seq<char> {
    match envelope {
        Envelope::TopicResponse { topic_name, success, response } => topic_response_text(
            topic_name@,
            success,
            response,
        ),
        Envelope::ProduceResponse { topic_name, success, offset } =>
            "Produce Response ------------\n"@ + name_line(topic_name@) + status_line(success)
                + "Last offset: "@ + decimal(offset as nat) + "\n"@,
        Envelope::ConsumeResponse { topic_name, success, messages } =>
            "Consume Response ------------\n"@ + name_line(topic_name@) + status_line(success)
                + "Messages: "@ + messages_text(messages@) + "\n"@,
        Envelope::InvalidResponse { error_message } => error_message@,
        Envelope::TopicRequest => "Topic Request is an invalid response type\n"@,
        Envelope::ConsumeRequest => "Consume request is an invalid request type\n"@,
        Envelope::ProduceRequest => "Produce request is an invalid request type\n"@,
        Envelope::NotInSchema => "Unable to parse cap n p message\n"@,
    }
}

/// Appends the text of a truth value.
fn write_bool(out: &mut String, value: bool)
    ensures
        final(out)@ == old(out)@ + bool_text(value),
{
    if value {
        out.append("true");
    } else {
        out.append("false");
    }
}

/// Appends the text of a number in base ten.
fn write_decimal(out: &mut String, value: u64)
    ensures
        final(out)@ == old(out)@ + decimal(value as nat),
    decreases value,
{
    if value >= 10 {
        write_decimal(out, value / 10);
    }
    out.append(digit_text((value % 10) as u16));
    assert(out@ =~= old(out)@ + decimal(value as nat));
}

/// Appends the items as a list.
pub fn write_list(out: &mut String, items: &Vec<String>)
    ensures
        final(out)@ == old(out)@ + list_text(texts(items@)),
{
    let ghost all = texts(items@);
    out.append("[");
    let count: usize = items.len();
    let mut at: usize = 0;
    assert(joined(all.take(0)) =~= Seq::<char>::empty());
    while at < count
        invariant
            at <= count,
            count == items@.len(),
            all == texts(items@),
            out@ == old(out)@ + "["@ + joined(all.take(at as int)),
        decreases count - at,
    {
        proof {
            assert(all.take(at + 1).drop_last() =~= all.take(at as int));
            assert(all.take(at + 1).last() == items@[at as int]@);
        }
        let ghost before = out@;
        if at > 0 {
            out.append(", ");
        }
        out.append(items[at].as_str());
        proof {
            if at == 0 {
                assert(out@ =~= old(out)@ + "["@ + joined(all.take(at + 1)));
            } else {
                assert(out@ =~= old(out)@ + "["@ + (joined(all.take(at as int)) + ", "@
                    + items@[at as int]@));
            }
        }
        at = at + 1;
    }
    assert(all.take(at as int) =~= all);
    out.append("]");
    assert(out@ =~= old(out)@ + list_text(all));
}

/// Appends a run of bytes as a list of numbers.
fn write_bytes(out: &mut String, bytes: &Vec<u8>)
    ensures
        final(out)@ == old(out)@ + bytes_text(bytes@),
{
    let mut items: Vec<String> = Vec::new();
    let count: usize = bytes.len();
    let mut at: usize = 0;
    while at < count
        invariant
            at <= count,
            count == bytes@.len(),
            items@.len() == at,
            forall|i: int| 0 <= i < at ==> (#[trigger] items@[i])@ == decimal(bytes@[i] as nat),
        decreases count - at,
    {
        let mut item = String::new();
        write_decimal(&mut item, bytes[at] as u64);
        assert(item@ =~= decimal(bytes@[at as int] as nat));
        items.push(item);
        at = at + 1;
    }
    assert(texts(items@) =~= Seq::new(bytes@.len(), |i: int| decimal(bytes@[i] as nat)));
    write_list(out, &items);
}

/// Appends a run of names as a list of quoted texts.
fn write_names(out: &mut String, names: &Vec<String>)
    ensures
        final(out)@ == old(out)@ + names_text(names@),
{
    let mut items: Vec<String> = Vec::new();
    let count: usize = names.len();
    let mut at: usize = 0;
    while at < count
        invariant
            at <= count,
            count == names@.len(),
            items@.len() == at,
            forall|i: int| 0 <= i < at ==> (#[trigger] items@[i])@ == debug_text(names@[i]@),
        decreases count - at,
    {
        items.push(debug_of_text(names[at].as_str()));
        at = at + 1;
    }
    assert(texts(items@) =~= Seq::new(names@.len(), |i: int| debug_text(names@[i]@)));
    write_list(out, &items);
}

/// One record of a consume response in words.
fn message_in_words(message: &Message) -> (out: String)
    ensures
        out@ == message_text(*message),
{
    let mut out = String::new();
    out.append("Key: ");
    write_bytes(&mut out, &message.key);
    out.append(",Value: ");
    write_bytes(&mut out, &message.value);
    out.append(", Timestamp: ");
    write_decimal(&mut out, message.timestamp);
    assert(out@ =~= message_text(*message));
    out
}

/// Appends the records of a consume response as a list of quoted texts.
fn write_messages(out: &mut String, messages: &Vec<Message>)
    ensures
        final(out)@ == old(out)@ + messages_text(messages@),
{
    let mut items: Vec<String> = Vec::new();
    let count: usize = messages.len();
    let mut at: usize = 0;
    while at < count
        invariant
            at <= count,
            count == messages@.len(),
            items@.len() == at,
            forall|i: int|
                0 <= i < at ==> (#[trigger] items@[i])@ == debug_text(message_text(messages@[i])),
        decreases count - at,
    {
        let words = message_in_words(&messages[at]);
        items.push(debug_of_text(words.as_str()));
        at = at + 1;
    }
    assert(texts(items@) =~= Seq::new(
        messages@.len(),
        |i: int| debug_text(message_text(messages@[i])),
    ));
    write_list(out, &items);
}

/// Appends the line that names the topic.
fn write_name_line(out: &mut String, topic_name: &str)
    ensures
        final(out)@ == old(out)@ + name_line(topic_name@),
{
    out.append("Topic Name: ");
    out.append(topic_name);
    out.append("\n");
    assert(out@ =~= old(out)@ + name_line(topic_name@));
}

/// Appends the line that says whether the request succeeded.
fn write_status_line(out: &mut String, success: bool)
    ensures
        final(out)@ == old(out)@ + status_line(success),
{
    out.append("Status: ");
    write_bool(out, success);
    out.append("\n");
    assert(out@ =~= old(out)@ + status_line(success));
}

/// Appends the lines of the topics in the list of all topics.
fn write_listing_lines(out: &mut String, listings: &Vec<TopicListing>)
    ensures
        final(out)@ == old(out)@ + listing_lines(listings@),
{
    let count: usize = listings.len();
    let mut at: usize = 0;
    assert(listing_lines(listings@.take(0)) =~= Seq::<char>::empty());
    assert(out@ =~= old(out)@ + Seq::<char>::empty());
    while at < count
        invariant
            at <= count,
            count == listings@.len(),
            out@ == old(out)@ + listing_lines(listings@.take(at as int)),
        decreases count - at,
    {
        proof {
            assert(listings@.take(at + 1).drop_last() =~= listings@.take(at as int));
            assert(listings@.take(at + 1).last() == listings@[at as int]);
        }
        let listing = &listings[at];
        let ghost before = out@;
        out.append("Topic Name: ");
        out.append(listing.topic_name.as_str());
        out.append(", consumer groups: ");
        write_names(out, &listing.consumer_groups);
        out.append("\n");
        assert(out@ =~= before + listing_line(*listing));
        assert(out@ =~= old(out)@ + listing_lines(listings@.take(at + 1)));
        at = at + 1;
    }
    assert(listings@.take(at as int) =~= listings@);
}

/// The text of a topic response.
fn topic_response_in_words(topic_name: &str, success: bool, response: &TopicResponse) -> (out:
    String)
    ensures
        out@ == topic_response_text(topic_name@, success, *response),
{
    match response {
        TopicResponse::Create => {
            let mut s = String::from_str("Topic Create Response ------------\n");
            write_name_line(&mut s, topic_name);
            write_status_line(&mut s, success);
            s
        },
        TopicResponse::Describe { max_retention_bytes, max_segment_bytes, consumer_groups } => {
            let mut s = String::from_str("Topic Describe Response ------------\n");
            write_name_line(&mut s, topic_name);
            write_status_line(&mut s, success);
            s.append("Topic max retention bytes: ");
            write_decimal(&mut s, *max_retention_bytes);
            s.append(", max segments bytes: ");
            write_decimal(&mut s, *max_segment_bytes);
            s.append(", consumer groups: ");
            write_names(&mut s, consumer_groups);
            s.append("\n");
            s
        },
        TopicResponse::Delete => {
            let mut s = String::from_str("Topic Delete Response ------------\n");
            write_name_line(&mut s, topic_name);
            write_status_line(&mut s, success);
            s
        },
        TopicResponse::All { topics } => {
            let mut s = String::from_str("Topic All Response ------------\n");
            write_status_line(&mut s, success);
            write_listing_lines(&mut s, topics);
            s
        },
    }
}

/// The text that shows a decoded message to a reader.
pub fn parse_response(envelope: &Envelope) -> (out: String)
    ensures
        out@ == response_text(*envelope),
{
    match envelope {
        Envelope::TopicResponse { topic_name, success, response } => topic_response_in_words(
            topic_name.as_str(),
            *success,
            response,
        ),
        Envelope::ProduceResponse { topic_name, success, offset } => {
            let mut s = String::from_str("Produce Response ------------\n");
            write_name_line(&mut s, topic_name.as_str());
            write_status_line(&mut s, *success);
            s.append("Last offset: ");
            write_decimal(&mut s, *offset);
            s.append("\n");
            s
        },
        Envelope::ConsumeResponse { topic_name, success, messages } => {
            let mut s = String::from_str("Consume Response ------------\n");
            write_name_line(&mut s, topic_name.as_str());
            write_status_line(&mut s, *success);
            s.append("Messages: ");
            write_messages(&mut s, messages);
            s.append("\n");
            s
        },
        Envelope::InvalidResponse { error_message } => error_message.clone(),
        Envelope::TopicRequest => String::from_str("Topic Request is an invalid response type\n"),
        Envelope::ConsumeRequest => String::from_str(
            "Consume request is an invalid request type\n",
        ),
        Envelope::ProduceRequest => String::from_str(
            "Produce request is an invalid request type\n",
        ),
        Envelope::NotInSchema => String::from_str("Unable to parse cap n p message\n"),
    }
}

} // verus!
