//! The connection server's rules: the length-prefixed framing of messages,
//! the reading of frames from a stream that arrives in pieces, and the
//! routing of responses to the connections that wait for them.
//!
//! Every message on the wire is a little-endian 16-bit length followed by
//! that many bytes of payload.

use vstd::prelude::*;
use vstd::slice::slice_subrange;
use vstd::slice::slice_to_vec;
use crate::encoding::{le_u16, lemma_u16_round_trip, u16_from_le_bytes, u16_le, u16_to_le_bytes};
use crate::random::{is_identifier, random_alphanumeric};
use crate::snapshot::append_bytes;

verus! {

/// How many characters a connection identifier has.
pub const CONNECTION_ID_LENGTH: usize = 10;

/// The most bytes that the payload of one frame can have.
pub const MAX_PAYLOAD_BYTES: usize = 65535;

/// Why the connection server did not pass a message on.
#[derive(Clone, Copy, Debug, PartialEq, Eq)]
pub enum ServerError {
    /// The payload is longer than a 16-bit length can state.
    FrameTooLarge,
    /// The response is for a connection that is not registered.
    UnknownConnection,
    /// The message is not one that goes out to a connection.
    NotAResponse,
}

/// What a request asks of the broker.
#[derive(Clone, Copy, Debug, PartialEq, Eq)]
pub enum RequestKind {
    Produce,
    Consume,
    TopicCreate,
    TopicDescribe,
    TopicDelete,
    TopicAll,
}

/// A message on the channels between the connection server and the broker.
#[derive(Debug)]
pub enum Command {
    /// A request of the connection `conn_id`, with its payload as received.
    Request { conn_id: String, kind: RequestKind, capmessagedata: Vec<u8> },
    /// A response for the connection `conn_id`, encoded for the wire.
    Response { conn_id: String, capmessagedata: Vec<u8> },
    /// The rejection of a request of the connection `conn_id`, encoded for
    /// the wire, with the reason in words.
    Invalid { conn_id: String, error_message: String, capmessage_data: Vec<u8> },
}

/// What becomes of a frame once its payload has been decoded.
#[derive(Debug)]
pub enum Dispatch {
    /// The request goes to the broker.
    Forward(Command),
    /// The payload did not decode: the connection is to get an invalid
    /// response with this message, and stays open.
    Reject { conn_id: String, error_message: String },
}

/// A new random connection identifier of ten letters and digits.
pub fn generate_connection_string() -> (id: String)
    ensures
        is_identifier(id@, CONNECTION_ID_LENGTH as int),
{
    random_alphanumeric(CONNECTION_ID_LENGTH)
}

/// The frame that carries `payload`.
pub open spec fn frame_of(payload: Seq<u8>) -> Seq<u8> {
    u16_le(payload.len() as u16) + payload
}

/// The length of the first frame of `stream`, prefix included, where the
/// stream holds that frame whole.
pub open spec fn first_frame(stream: Seq<u8>) -> Option<int> {
    if stream.len() >= 2 && stream.len() >= 2 + le_u16(stream.take(2)) {
        Some(2 + le_u16(stream.take(2)))
    } else {
        None
    }
}

/// The payloads of the complete frames at the front of `stream`, in order.
pub open spec fn frames(stream: Seq<u8>) -> Seq<Seq<u8>>
    decreases stream.len(),
{
    match first_frame(stream) {
        None => Seq::empty(),
        Some(n) => seq![stream.subrange(2, n)] + frames(stream.skip(n)),
    }
}

/// What is left of `stream` after its complete frames: the start of a frame
/// that has not arrived whole, or nothing.
pub open spec fn remainder(stream: Seq<u8>) -> Seq<u8>
    decreases stream.len(),
{
    match first_frame(stream) {
        None => stream,
        Some(n) => remainder(stream.skip(n)),
    }
}

/// The payloads of a run of messages.
pub open spec fn payloads(messages: Seq<Vec<u8>>) -> Seq<Seq<u8>> {
    Seq::new(messages.len(), |i: int| messages[i]@)
}

/// A frame followed by more of the stream is read as its payload, followed
/// by what the rest of the stream holds.
pub proof fn lemma_frame_round_trip(payload: Seq<u8>, rest: Seq<u8>)
    requires
        payload.len() <= MAX_PAYLOAD_BYTES,
    ensures
        frames(frame_of(payload) + rest) == seq![payload] + frames(rest),
        remainder(frame_of(payload) + rest) == remainder(rest),
{
    let stream = frame_of(payload) + rest;
    lemma_u16_round_trip(payload.len() as u16);
    assert(stream.take(2) =~= u16_le(payload.len() as u16));
    assert(stream.subrange(2, 2 + payload.len() as int) =~= payload);
    assert(stream.skip(2 + payload.len() as int) =~= rest);
}

/// What is left after the complete frames holds no complete frame.
pub proof fn lemma_remainder_has_no_frame(stream: Seq<u8>)
    ensures
        first_frame(remainder(stream)) is None,
        remainder(stream).len() <= stream.len(),
    decreases stream.len(),
{
    if let Some(n) = first_frame(stream) {
        lemma_remainder_has_no_frame(stream.skip(n));
    }
}

/// However the transport cuts the stream in two, the frames read are those
/// of the whole stream: the frames of the first piece, then the frames of
/// what the first piece left over followed by the second piece. No frame is
/// delivered short, twice or out of order.
pub proof fn lemma_frames_of_pieces(first: Seq<u8>, second: Seq<u8>)
    ensures
        frames(first + second) == frames(first) + frames(remainder(first) + second),
        remainder(first + second) == remainder(remainder(first) + second),
    decreases first.len(),
{
    let whole = first + second;
    match first_frame(first) {
        None => {
            assert(frames(first) + frames(first + second) =~= frames(first + second));
        },
        Some(n) => {
            assert(whole.take(2) =~= first.take(2));
            assert(first_frame(whole) == Some(n));
            assert(whole.subrange(2, n) =~= first.subrange(2, n));
            assert(whole.skip(n) =~= first.skip(n) + second);
            lemma_frames_of_pieces(first.skip(n), second);
            let head = seq![first.subrange(2, n)];
            assert(head + (frames(first.skip(n)) + frames(remainder(first.skip(n)) + second))
                =~= (head + frames(first.skip(n))) + frames(remainder(first.skip(n)) + second));
        },
    }
}

/// The pieces of a stream joined in order.
pub open spec fn joined(pieces: Seq<Seq<u8>>) -> Seq<u8>
    decreases pieces.len(),
{
    if pieces.len() == 0 {
        Seq::empty()
    } else {
        joined(pieces.drop_last()) + pieces.last()
    }
}

/// The payloads read when the pieces of a stream arrive one after the other,
/// each read with what the pieces before it left over.
pub open spec fn frames_read(pieces: Seq<Seq<u8>>) -> Seq<Seq<u8>>
    decreases pieces.len(),
{
    if pieces.len() == 0 {
        Seq::empty()
    } else {
        frames_read(pieces.drop_last()) + frames(
            remainder(joined(pieces.drop_last())) + pieces.last(),
        )
    }
}

/// Into however many pieces the transport cuts the stream, reading them one
/// after the other gives the frames of the whole stream, and leaves over what
/// the whole stream leaves over.
pub proof fn lemma_frames_of_many_pieces(pieces: Seq<Seq<u8>>)
    ensures
        frames_read(pieces) == frames(joined(pieces)),
    decreases pieces.len(),
{
    if pieces.len() > 0 {
        lemma_frames_of_many_pieces(pieces.drop_last());
        lemma_frames_of_pieces(joined(pieces.drop_last()), pieces.last());
    }
}

/// Puts `payload` in a frame; `FrameTooLarge` where its length does not fit
/// the 16-bit prefix.
pub fn frame(payload: &[u8]) -> (r: Result<Vec<u8>, ServerError>)
    ensures
        match r {
            Ok(bytes) => payload@.len() <= MAX_PAYLOAD_BYTES && bytes@ == frame_of(payload@),
            Err(e) => payload@.len() > MAX_PAYLOAD_BYTES && e == ServerError::FrameTooLarge,
        },
{
    if payload.len() > MAX_PAYLOAD_BYTES {
        return Err(ServerError::FrameTooLarge);
    }
    let mut bytes = u16_to_le_bytes(payload.len() as u16);
    append_bytes(&mut bytes, payload);
    Ok(bytes)
}

/// What one read on a connection gave.
#[derive(Debug)]
pub enum ReadOutcome {
    /// The bytes that were read; none at all where the peer has closed the
    /// connection.
    Bytes(Vec<u8>),
    /// Nothing was there to read yet.
    WouldBlock,
    /// The read failed.
    Failed,
}

/// What a connection's read loop does after a read: the messages to pass on,
/// and whether to go on reading.
#[derive(Debug)]
pub struct ReadStep {
    pub messages: Vec<Vec<u8>>,
    pub proceed: bool,
}

/// The reading side of one connection: the bytes that have arrived and do
/// not make a whole frame yet, and whether the connection has ended.
#[derive(Debug)]
pub struct FrameReader {
    pub pending: Vec<u8>,
    pub closed: bool,
}

impl FrameReader {
    /// The invariant of a reader: the pending bytes hold no whole frame.
    pub open spec fn wf(&self) -> bool {
        first_frame(self.pending@) is None
    }

    /// How many bytes the frame under way still lacks: what is missing of
    /// the length prefix, or of the payload once the prefix is there.
    pub open spec fn spec_wanted(&self) -> int {
        if self.closed {
            0
        } else if self.pending@.len() < 2 {
            2 - self.pending@.len()
        } else {
            2 + le_u16(self.pending@.take(2)) - self.pending@.len()
        }
    }

    /// The reader of a connection that has just been accepted.
    pub fn new() -> (reader: FrameReader)
        ensures
            reader.wf(),
            reader.pending@.len() == 0,
            !reader.closed,
    {
        FrameReader { pending: Vec::new(), closed: false }
    }

    /// How many bytes to read next; 0 once the connection has ended.
    pub fn wanted(&self) -> (count: usize)
        requires
            self.wf(),
        ensures
            count == self.spec_wanted(),
            !self.closed ==> count > 0,
    {
        if self.closed {
            0
        } else if self.pending.len() < 2 {
            2 - self.pending.len()
        } else {
            let length = u16_from_le_bytes(self.pending[0], self.pending[1]);
            assert(self.pending@.take(2) =~= seq![self.pending@[0], self.pending@[1]]);
            2 + length as usize - self.pending.len()
        }
    }

    /// Takes the bytes of `chunk` into the stream and returns the payloads
    /// of the frames that are now whole, in order. What is left of the
    /// stream stays pending.
    pub fn feed(&mut self, chunk: &[u8]) -> (messages: Vec<Vec<u8>>)
        ensures
            final(self).wf(),
            final(self).closed == old(self).closed,
            payloads(messages@) == frames(old(self).pending@ + chunk@),
            final(self).pending@ == remainder(old(self).pending@ + chunk@),
    {
        let ghost stream = self.pending@ + chunk@;
        append_bytes(&mut self.pending, chunk);
        let mut messages: Vec<Vec<u8>> = Vec::new();
        let total: usize = self.pending.len();
        let mut at: usize = 0;
        assert(stream.skip(0) =~= stream);
        assert(payloads(messages@) =~= Seq::<Seq<u8>>::empty());
        assert(Seq::<Seq<u8>>::empty() + frames(stream) =~= frames(stream));
        loop
            invariant
                at <= total,
                total == stream.len(),
                self.pending@ == stream,
                self.closed == old(self).closed,
                frames(stream) == payloads(messages@) + frames(stream.skip(at as int)),
                remainder(stream) == remainder(stream.skip(at as int)),
            ensures
                at <= total,
                self.pending@ == stream,
                self.closed == old(self).closed,
                frames(stream) == payloads(messages@),
                remainder(stream) == stream.skip(at as int),
            decreases total - at,
        {
            let ghost tail = stream.skip(at as int);
            if total - at < 2 {
                assert(frames(tail) =~= Seq::<Seq<u8>>::empty());
                assert(payloads(messages@) + Seq::<Seq<u8>>::empty() =~= payloads(messages@));
                break ;
            }
            let length: usize = u16_from_le_bytes(self.pending[at], self.pending[at + 1]) as usize;
            assert(tail.take(2) =~= seq![stream[at as int], stream[at + 1]]);
            if total - at - 2 < length {
                assert(frames(tail) =~= Seq::<Seq<u8>>::empty());
                assert(payloads(messages@) + Seq::<Seq<u8>>::empty() =~= payloads(messages@));
                break ;
            }
            let end: usize = at + 2 + length;
            let payload = slice_to_vec(slice_subrange(self.pending.as_slice(), at + 2, end));
            let ghost before = payloads(messages@);
            messages.push(payload);
            proof {
                assert(first_frame(tail) == Some(2 + length as int));
                assert(tail.subrange(2, 2 + length as int) =~= payload@);
                assert(tail.skip(2 + length as int) =~= stream.skip(end as int));
                assert(payloads(messages@) =~= before.push(payload@));
                assert(before + (seq![payload@] + frames(stream.skip(end as int)))
                    =~= before.push(payload@) + frames(stream.skip(end as int)));
            }
            at = end;
        }
        let rest = slice_to_vec(slice_subrange(self.pending.as_slice(), at, total));
        assert(rest@ =~= stream.skip(at as int));
        self.pending = rest;
        proof {
            lemma_remainder_has_no_frame(stream);
        }
        messages
    }

    /// Takes the outcome of one read. Bytes join the stream and the frames
    /// that are now whole are passed on. A read that found nothing yet
    /// changes nothing and is tried again. The end of the stream and a failed
    /// read end the connection: what is pending then is the start of a frame
    /// that never arrived whole, and is dropped. After the end nothing is
    /// passed on any more.
    pub fn on_read(&mut self, outcome: ReadOutcome) -> (step: ReadStep)
        requires
            old(self).wf(),
        ensures
            final(self).wf(),
            step.proceed == !final(self).closed,
            match outcome {
                ReadOutcome::Bytes(bytes) => if old(self).closed || bytes@.len() == 0 {
                    &&& final(self).closed
                    &&& final(self).pending@.len() == 0
                    &&& step.messages@.len() == 0
                } else {
                    &&& !final(self).closed
                    &&& payloads(step.messages@) == frames(old(self).pending@ + bytes@)
                    &&& final(self).pending@ == remainder(old(self).pending@ + bytes@)
                },
                ReadOutcome::WouldBlock => {
                    &&& *final(self) == *old(self)
                    &&& step.messages@.len() == 0
                },
                ReadOutcome::Failed => {
                    &&& final(self).closed
                    &&& final(self).pending@.len() == 0
                    &&& step.messages@.len() == 0
                },
            },
    {
        match outcome {
            ReadOutcome::Bytes(bytes) => {
                if self.closed || bytes.len() == 0 {
                    self.closed = true;
                    self.pending = Vec::new();
                    ReadStep { messages: Vec::new(), proceed: false }
                } else {
                    let messages = self.feed(bytes.as_slice());
                    ReadStep { messages, proceed: true }
                }
            },
            ReadOutcome::WouldBlock => ReadStep { messages: Vec::new(), proceed: !self.closed },
            ReadOutcome::Failed => {
                self.closed = true;
                self.pending = Vec::new();
                ReadStep { messages: Vec::new(), proceed: false }
            },
        }
    }
}

/// Decides what becomes of a frame of the connection `conn_id`: `decoded` is
/// what the wire format made of its payload, the kind of request or the
/// words of the parse error. A request goes to the broker with the
/// connection's identifier and the payload; a payload that did not decode is
/// answered with an invalid response and never ends the connection.
pub fn dispatch(conn_id: String, decoded: Result<RequestKind, String>, payload: Vec<u8>) -> (d:
    Dispatch)
    ensures
        match decoded {
            Ok(kind) => d matches Dispatch::Forward(
                Command::Request { conn_id: id, kind: k, capmessagedata: data },
            ) && id == conn_id && k == kind && data == payload,
            Err(message) => d matches Dispatch::Reject { conn_id: id, error_message: m } && id
                == conn_id && m == message,
        },
{
    match decoded {
        Ok(kind) => Dispatch::Forward(Command::Request { conn_id, kind, capmessagedata: payload }),
        Err(error_message) => Dispatch::Reject { conn_id, error_message },
    }
}

/// The identifiers of the connections that are open, in the order in which
/// they were accepted.
#[derive(Debug)]
pub struct Connections {
    pub ids: Vec<String>,
}

/// The identifiers of a run of connections, as texts.
pub open spec fn id_views(ids: Seq<String>) -> Seq<Seq<char>> {
    Seq::new(ids.len(), |i: int| ids[i]@)
}

impl Connections {
    /// The identifiers as texts.
    pub open spec fn view(&self) -> Seq<Seq<char>> {
        id_views(self.ids@)
    }

    /// No connection.
    pub fn new() -> (connections: Connections)
        ensures
            connections.view().len() == 0,
    {
        let connections = Connections { ids: Vec::new() };
        assert(connections.view() =~= Seq::<Seq<char>>::empty());
        connections
    }

    /// The position of the connection `id`, if it is registered.
    pub fn position(&self, id: &String) -> (position: Option<usize>)
        ensures
            match position {
                Some(i) => i < self.view().len() && self.view()[i as int] == id@ && forall|j: int|
                    0 <= j < i ==> self.view()[j] != id@,
                None => !self.view().contains(id@),
            },
    {
        let count: usize = self.ids.len();
        let mut at: usize = 0;
        while at < count
            invariant
                at <= count,
                count == self.ids@.len(),
                forall|j: int| 0 <= j < at ==> self.view()[j] != id@,
            decreases count - at,
        {
            if self.ids[at] == *id {
                return Some(at);
            }
            at = at + 1;
        }
        None
    }

    /// Registers the connection `id`.
    pub fn register(&mut self, id: String)
        ensures
            final(self).view() == old(self).view().push(id@),
    {
        self.ids.push(id);
        assert(self.view() =~= old(self).view().push(id@));
    }

    /// Takes the connection `id` out, where it is registered, and says
    /// whether it was.
    pub fn deregister(&mut self, id: &String) -> (found: bool)
        ensures
            found == old(self).view().contains(id@),
            !found ==> final(self).ids == old(self).ids,
            found ==> exists|i: int|
                0 <= i < old(self).view().len() && old(self).view()[i] == id@ && (forall|j: int|
                    0 <= j < i ==> old(self).view()[j] != id@) && final(self).view() == old(
                    self
                ).view().remove(i),
    {
        match self.position(id) {
            Some(i) => {
                let ghost before = self.view();
                self.ids.remove(i);
                assert(self.view() =~= before.remove(i as int));
                true
            },
            None => false,
        }
    }

    /// Decides where a message of the response channel goes: a response or
    /// the rejection of a request goes, payload unchanged, to the connection
    /// it names, given by its position; `UnknownConnection` where that
    /// connection is not registered any more, and `NotAResponse` for any
    /// other message. Neither error ends the server: the message is dropped.
    pub fn route(&self, command: Command) -> (r: Result<(usize, Vec<u8>), ServerError>)
        ensures
            match command {
                Command::Response { conn_id, capmessagedata } => match r {
                    Ok((i, payload)) => i < self.view().len() && self.view()[i as int] == conn_id@
                        && payload == capmessagedata,
                    Err(e) => e == ServerError::UnknownConnection && !self.view().contains(
                        conn_id@,
                    ),
                },
                Command::Invalid { conn_id, error_message, capmessage_data } => match r {
                    Ok((i, payload)) => i < self.view().len() && self.view()[i as int] == conn_id@
                        && payload == capmessage_data,
                    Err(e) => e == ServerError::UnknownConnection && !self.view().contains(
                        conn_id@,
                    ),
                },
                Command::Request { .. } => r == Err::<(usize, Vec<u8>), ServerError>(
                    ServerError::NotAResponse,
                ),
            },
    {
        let (id, response_message) = match command {
            Command::Response { conn_id, capmessagedata } => (conn_id, capmessagedata),
            Command::Invalid { conn_id, error_message: _, capmessage_data } => (
                conn_id,
                capmessage_data,
            ),
            Command::Request { .. } => {
                return Err(ServerError::NotAResponse);
            },
        };
        match self.position(&id) {
            Some(i) => Ok((i, response_message)),
            None => Err(ServerError::UnknownConnection),
        }
    }
}

} // verus!
