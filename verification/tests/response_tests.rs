use lucidmq::response::{
    parse_response, write_list, Envelope, Message, TopicListing, TopicResponse,
};

#[test]
fn a_topic_create_response() {
    let envelope = Envelope::TopicResponse {
        topic_name: "orders".to_string(),
        success: true,
        response: TopicResponse::Create,
    };
    assert_eq!(
        parse_response(&envelope),
        "Topic Create Response ------------\nTopic Name: orders\nStatus: true\n"
    );
}

#[test]
fn a_topic_delete_response() {
    let envelope = Envelope::TopicResponse {
        topic_name: "orders".to_string(),
        success: false,
        response: TopicResponse::Delete,
    };
    assert_eq!(
        parse_response(&envelope),
        "Topic Delete Response ------------\nTopic Name: orders\nStatus: false\n"
    );
}

#[test]
fn a_topic_describe_response() {
    let envelope = Envelope::TopicResponse {
        topic_name: "orders".to_string(),
        success: true,
        response: TopicResponse::Describe {
            max_retention_bytes: 1000,
            max_segment_bytes: 100,
            consumer_groups: vec!["g1".to_string(), "g \"2\"".to_string()],
        },
    };
    assert_eq!(
        parse_response(&envelope),
        "Topic Describe Response ------------\nTopic Name: orders\nStatus: true\n\
         Topic max retention bytes: 1000, max segments bytes: 100, \
         consumer groups: [\"g1\", \"g \\\"2\\\"\"]\n"
    );
}

#[test]
fn a_list_of_all_topics() {
    let envelope = Envelope::TopicResponse {
        topic_name: String::new(),
        success: true,
        response: TopicResponse::All {
            topics: vec![
                TopicListing {
                    topic_name: "orders".to_string(),
                    consumer_groups: vec!["g1".to_string()],
                },
                TopicListing { topic_name: "audit".to_string(), consumer_groups: Vec::new() },
            ],
        },
    };
    assert_eq!(
        parse_response(&envelope),
        "Topic All Response ------------\nStatus: true\n\
         Topic Name: orders, consumer groups: [\"g1\"]\n\
         Topic Name: audit, consumer groups: []\n"
    );
}

#[test]
fn a_produce_response() {
    let envelope =
        Envelope::ProduceResponse { topic_name: "orders".to_string(), success: true, offset: 42 };
    assert_eq!(
        parse_response(&envelope),
        "Produce Response ------------\nTopic Name: orders\nStatus: true\nLast offset: 42\n"
    );
}

#[test]
fn numbers_are_written_in_base_ten() {
    for offset in [0u64, 7, 10, 99, 100, 65535, 1_000_000, u64::MAX] {
        let envelope =
            Envelope::ProduceResponse { topic_name: "t".to_string(), success: true, offset };
        assert_eq!(
            parse_response(&envelope),
            format!(
                "Produce Response ------------\nTopic Name: t\nStatus: true\nLast offset: {}\n",
                offset
            )
        );
    }
}

#[test]
fn a_consume_response() {
    let messages = vec![
        Message { key: vec![107], value: vec![1, 20, 255], timestamp: 5 },
        Message { key: Vec::new(), value: Vec::new(), timestamp: 0 },
    ];
    let envelope =
        Envelope::ConsumeResponse { topic_name: "orders".to_string(), success: true, messages };
    assert_eq!(
        parse_response(&envelope),
        "Consume Response ------------\nTopic Name: orders\nStatus: true\n\
         Messages: [\"Key: [107],Value: [1, 20, 255], Timestamp: 5\", \
         \"Key: [],Value: [], Timestamp: 0\"]\n"
    );
}

#[test]
fn an_invalid_response_is_its_message() {
    let envelope = Envelope::InvalidResponse { error_message: "no such topic".to_string() };
    assert_eq!(parse_response(&envelope), "no such topic");
}

#[test]
fn requests_are_no_responses() {
    assert_eq!(
        parse_response(&Envelope::TopicRequest),
        "Topic Request is an invalid response type\n"
    );
    assert_eq!(
        parse_response(&Envelope::ConsumeRequest),
        "Consume request is an invalid request type\n"
    );
    assert_eq!(
        parse_response(&Envelope::ProduceRequest),
        "Produce request is an invalid request type\n"
    );
    assert_eq!(parse_response(&Envelope::NotInSchema), "Unable to parse cap n p message\n");
}

#[test]
fn a_list_is_bracketed_and_comma_separated() {
    let mut out = "x".to_string();
    write_list(&mut out, &Vec::new());
    assert_eq!(out, "x[]");
    write_list(&mut out, &vec!["a".to_string()]);
    assert_eq!(out, "x[][a]");
    write_list(&mut out, &vec!["a".to_string(), "".to_string(), "c".to_string()]);
    assert_eq!(out, "x[][a][a, , c]");
}

#[test]
fn names_are_quoted_as_rust_quotes_them() {
    let names = vec!["tab\there".to_string(), "новый".to_string(), "a\\b".to_string()];
    let envelope = Envelope::TopicResponse {
        topic_name: "t".to_string(),
        success: true,
        response: TopicResponse::All {
            topics: vec![TopicListing { topic_name: "t".to_string(), consumer_groups: names.clone() }],
        },
    };
    assert_eq!(
        parse_response(&envelope),
        format!(
            "Topic All Response ------------\nStatus: true\nTopic Name: t, consumer groups: {:?}\n",
            names
        )
    );
}
