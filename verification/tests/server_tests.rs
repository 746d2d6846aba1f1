use lucidmq::server::{parse_mesage, Command as TextCommand};
use lucidmq::tcp_server::{
    dispatch, frame, generate_connection_string, Command, Connections, Dispatch, FrameReader,
    ReadOutcome, RequestKind, ServerError,
};

#[test]
fn text_commands() {
    assert!(matches!(parse_mesage("produce\n"), TextCommand::Produce { key } if key == "produce"));
    assert!(matches!(parse_mesage("consume\n"), TextCommand::Consume { key } if key == "consume"));
    assert!(matches!(parse_mesage("topic\n"), TextCommand::Topic { key } if key == "topic"));
}

#[test]
fn anything_else_is_an_invalid_text_command() {
    for message in ["produce", "Produce\n", "produce\n\n", " topic\n", "", "consume\r\n"] {
        assert!(
            matches!(parse_mesage(message), TextCommand::Invalid { key } if key == "invalid"),
            "{:?} was taken for a command",
            message
        );
    }
}

#[test]
fn connection_identifiers_are_ten_letters_and_digits() {
    let mut seen = Vec::new();
    for _ in 0..50 {
        let id = generate_connection_string();
        assert_eq!(id.chars().count(), 10);
        assert!(id.chars().all(|c| c.is_ascii_alphanumeric()));
        seen.push(id);
    }
    seen.sort();
    seen.dedup();
    assert!(seen.len() > 1);
}

#[test]
fn a_frame_is_a_length_and_a_payload() {
    assert_eq!(frame(b"hello"), Ok(vec![5, 0, b'h', b'e', b'l', b'l', b'o']));
    assert_eq!(frame(b""), Ok(vec![0, 0]));
    let payload = vec![7u8; 258];
    let bytes = frame(&payload).unwrap();
    assert_eq!(&bytes[..2], &[2, 1]);
    assert_eq!(&bytes[2..], &payload[..]);
}

#[test]
fn the_largest_frame_and_one_too_large() {
    let payload = vec![1u8; 65535];
    let bytes = frame(&payload).unwrap();
    assert_eq!(&bytes[..2], &[0xff, 0xff]);
    assert_eq!(bytes.len(), 65537);
    assert_eq!(frame(&vec![1u8; 65536]), Err(ServerError::FrameTooLarge));
}

#[test]
fn one_complete_message() {
    let mut reader = FrameReader::new();
    assert_eq!(reader.wanted(), 2);
    let step = reader.on_read(ReadOutcome::Bytes(vec![0x05, 0x00]));
    assert!(step.messages.is_empty());
    assert!(step.proceed);
    assert_eq!(reader.wanted(), 5);
    let step = reader.on_read(ReadOutcome::Bytes(vec![1, 2, 3, 4, 5]));
    assert_eq!(step.messages, vec![vec![1, 2, 3, 4, 5]]);
    assert!(step.proceed);
    assert!(reader.pending.is_empty());
    assert_eq!(reader.wanted(), 2);
}

#[test]
fn one_complete_message_in_one_read() {
    let mut reader = FrameReader::new();
    let step = reader.on_read(ReadOutcome::Bytes(vec![0x05, 0x00, 1, 2, 3, 4, 5]));
    assert_eq!(step.messages, vec![vec![1, 2, 3, 4, 5]]);
    assert!(reader.pending.is_empty());
}

#[test]
fn a_truncated_message_is_never_delivered() {
    let mut reader = FrameReader::new();
    let step = reader.on_read(ReadOutcome::Bytes(vec![0x05, 0x00]));
    assert!(step.messages.is_empty());
    let step = reader.on_read(ReadOutcome::Bytes(vec![9]));
    assert!(step.messages.is_empty());
    assert!(step.proceed);
    assert_eq!(reader.wanted(), 4);
    let step = reader.on_read(ReadOutcome::Bytes(Vec::new()));
    assert!(step.messages.is_empty());
    assert!(!step.proceed);
    assert!(reader.closed);
    assert!(reader.pending.is_empty());
    assert_eq!(reader.wanted(), 0);
    let step = reader.on_read(ReadOutcome::Bytes(vec![1, 2, 3, 4]));
    assert!(step.messages.is_empty());
    assert!(!step.proceed);
}

#[test]
fn a_read_that_would_block_is_tried_again() {
    let mut reader = FrameReader::new();
    reader.on_read(ReadOutcome::Bytes(vec![3]));
    let step = reader.on_read(ReadOutcome::WouldBlock);
    assert!(step.messages.is_empty());
    assert!(step.proceed);
    assert_eq!(reader.pending, vec![3]);
    assert_eq!(reader.wanted(), 1);
    let step = reader.on_read(ReadOutcome::Bytes(vec![0, b'a', b'b', b'c']));
    assert_eq!(step.messages, vec![b"abc".to_vec()]);
}

#[test]
fn a_failed_read_ends_the_connection() {
    let mut reader = FrameReader::new();
    reader.on_read(ReadOutcome::Bytes(vec![2, 0, 1]));
    let step = reader.on_read(ReadOutcome::Failed);
    assert!(step.messages.is_empty());
    assert!(!step.proceed);
    assert!(reader.closed);
}

#[test]
fn frames_arrive_whole_however_the_stream_is_cut() {
    let payloads: Vec<Vec<u8>> = vec![b"a".to_vec(), Vec::new(), b"bcd".to_vec(), vec![0; 300]];
    let mut stream = Vec::new();
    for payload in &payloads {
        stream.extend(frame(payload).unwrap());
    }
    stream.extend([9, 0, 1, 2]);
    for size in 1..stream.len() + 1 {
        let mut reader = FrameReader::new();
        let mut got = Vec::new();
        for chunk in stream.chunks(size) {
            got.extend(reader.feed(chunk));
        }
        assert_eq!(got, payloads, "with pieces of {} bytes", size);
        assert_eq!(reader.pending, vec![9, 0, 1, 2]);
        assert_eq!(reader.wanted(), 7);
    }
}

#[test]
fn an_empty_frame_is_a_message() {
    let mut reader = FrameReader::new();
    let step = reader.on_read(ReadOutcome::Bytes(vec![0, 0]));
    assert_eq!(step.messages, vec![Vec::<u8>::new()]);
    assert_eq!(reader.wanted(), 2);
}

#[test]
fn a_decoded_request_goes_to_the_broker() {
    let d = dispatch("abc".to_string(), Ok(RequestKind::Produce), vec![1, 2]);
    match d {
        Dispatch::Forward(Command::Request { conn_id, kind, capmessagedata }) => {
            assert_eq!(conn_id, "abc");
            assert_eq!(kind, RequestKind::Produce);
            assert_eq!(capmessagedata, vec![1, 2]);
        }
        other => panic!("{:?}", other),
    }
}

#[test]
fn a_payload_that_does_not_decode_is_rejected() {
    let d = dispatch("abc".to_string(), Err("bad schema".to_string()), vec![1, 2]);
    match d {
        Dispatch::Reject { conn_id, error_message } => {
            assert_eq!(conn_id, "abc");
            assert_eq!(error_message, "bad schema");
        }
        other => panic!("{:?}", other),
    }
}

#[test]
fn responses_go_to_the_connection_they_name() {
    let mut connections = Connections::new();
    connections.register("aaaaaaaaaa".to_string());
    connections.register("bbbbbbbbbb".to_string());
    let response =
        Command::Response { conn_id: "bbbbbbbbbb".to_string(), capmessagedata: vec![1, 2, 3] };
    assert_eq!(connections.route(response), Ok((1, vec![1, 2, 3])));
    let invalid = Command::Invalid {
        conn_id: "aaaaaaaaaa".to_string(),
        error_message: "no".to_string(),
        capmessage_data: vec![4],
    };
    assert_eq!(connections.route(invalid), Ok((0, vec![4])));
}

#[test]
fn a_response_for_a_closed_connection_is_dropped() {
    let mut connections = Connections::new();
    connections.register("aaaaaaaaaa".to_string());
    assert!(connections.deregister(&"aaaaaaaaaa".to_string()));
    assert!(!connections.deregister(&"aaaaaaaaaa".to_string()));
    let response =
        Command::Response { conn_id: "aaaaaaaaaa".to_string(), capmessagedata: vec![1] };
    assert_eq!(connections.route(response), Err(ServerError::UnknownConnection));
    assert_eq!(connections.position(&"aaaaaaaaaa".to_string()), None);
}

#[test]
fn a_request_is_no_response() {
    let connections = Connections::new();
    let request = Command::Request {
        conn_id: "aaaaaaaaaa".to_string(),
        kind: RequestKind::TopicAll,
        capmessagedata: Vec::new(),
    };
    assert_eq!(connections.route(request), Err(ServerError::NotAResponse));
}

#[test]
fn deregistering_keeps_the_other_connections_in_order() {
    let mut connections = Connections::new();
    for id in ["a", "b", "c"] {
        connections.register(id.to_string());
    }
    assert!(connections.deregister(&"b".to_string()));
    assert_eq!(connections.ids, vec!["a".to_string(), "c".to_string()]);
    assert_eq!(connections.position(&"c".to_string()), Some(1));
}
