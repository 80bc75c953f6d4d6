use gossip_nodes::echo::EchoNode;
use gossip_nodes::proto::{
    EchoBody, EchoEvent, HandleError, Message, MessageHandler, MessageId, UniqueIdsBody,
    UniqueIdsEvent,
};
use gossip_nodes::unique_ids::{push_decimal, UniqueIdsNode};

fn echo_message(src: &str, dest: &str, body: EchoBody) -> EchoEvent {
    EchoEvent::from(Message::new(src.to_string(), dest.to_string(), body))
}

fn ids_message(src: &str, dest: &str, body: UniqueIdsBody) -> UniqueIdsEvent {
    UniqueIdsEvent::from(Message::new(src.to_string(), dest.to_string(), body))
}

fn generate(node: &mut UniqueIdsNode, request: u64) -> (MessageId, MessageId, String) {
    let to = node.identifier().to_string();
    let replies = node
        .handle(ids_message("c1", &to, UniqueIdsBody::Generate { msg_id: MessageId(request) }))
        .unwrap();
    assert_eq!(replies.len(), 1);
    assert_eq!(replies[0].src, to);
    assert_eq!(replies[0].dest, "c1");
    match &replies[0].body {
        UniqueIdsBody::GenerateOk { msg_id, in_reply_to, id } => (*msg_id, *in_reply_to, id.clone()),
        other => panic!("unexpected {:?}", other),
    }
}

#[test]
fn echo_node_starts_without_identity() {
    assert_eq!(EchoNode::default().identifier(), "");
}

#[test]
fn echo_init_sets_identity() {
    let mut node = EchoNode::default();
    let body = EchoBody::Init {
        msg_id: MessageId(1),
        node_id: "n1".to_string(),
        node_ids: vec!["n1".to_string()],
    };
    let replies = node.handle(echo_message("c1", "n1", body)).unwrap();
    assert_eq!(node.identifier(), "n1");
    assert_eq!(replies.len(), 1);
    assert_eq!(replies[0].src, "n1");
    assert_eq!(replies[0].dest, "c1");
    assert!(matches!(replies[0].body, EchoBody::InitOk { in_reply_to: MessageId(1) }));
}

#[test]
fn echo_mirrors_the_request() {
    let mut node = EchoNode::default();
    for (round, text) in ["hello", "", "Please echo 35"].iter().enumerate() {
        let body = EchoBody::Echo { msg_id: MessageId(40 + round as u64), echo: text.to_string() };
        let replies = node.handle(echo_message("c2", "n1", body)).unwrap();
        assert_eq!(replies.len(), 1);
        assert_eq!(replies[0].src, "n1");
        assert_eq!(replies[0].dest, "c2");
        match &replies[0].body {
            EchoBody::EchoOk { msg_id, in_reply_to, echo } => {
                assert_eq!(*msg_id, MessageId(round as u64));
                assert_eq!(*in_reply_to, MessageId(40 + round as u64));
                assert_eq!(echo, text);
            }
            other => panic!("unexpected {:?}", other),
        }
    }
}

#[test]
fn echo_passes_over_reply_bodies() {
    let mut node = EchoNode::default();
    let bodies = vec![
        EchoBody::InitOk { in_reply_to: MessageId(1) },
        EchoBody::EchoOk { msg_id: MessageId(1), in_reply_to: MessageId(2), echo: "x".to_string() },
        EchoBody::Error { in_reply_to: MessageId(1), code: 1, text: "t".to_string() },
    ];
    for body in bodies {
        assert!(node.handle(echo_message("c1", "n1", body)).unwrap().is_empty());
    }
    assert_eq!(node.identifier(), "");
    let body = EchoBody::Echo { msg_id: MessageId(1), echo: "a".to_string() };
    let replies = node.handle(echo_message("c1", "n1", body)).unwrap();
    assert!(matches!(replies[0].body, EchoBody::EchoOk { msg_id: MessageId(0), .. }));
}

#[test]
fn echo_refuses_when_ids_are_exhausted() {
    let mut node = EchoNode::starting_at(u64::MAX - 1);
    let body = EchoBody::Echo { msg_id: MessageId(1), echo: "a".to_string() };
    let replies = node.handle(echo_message("c1", "n1", body)).unwrap();
    assert!(matches!(replies[0].body, EchoBody::EchoOk { msg_id: MessageId(id), .. } if id == u64::MAX - 1));
    let body = EchoBody::Echo { msg_id: MessageId(2), echo: "b".to_string() };
    assert_eq!(
        node.handle(echo_message("c1", "n1", body)).unwrap_err(),
        HandleError::MessageIdsExhausted
    );
    let body = EchoBody::Init { msg_id: MessageId(3), node_id: "n9".to_string(), node_ids: vec![] };
    assert_eq!(node.handle(echo_message("c1", "n1", body)).unwrap().len(), 1);
    assert_eq!(node.identifier(), "n9");
}

#[test]
fn unique_ids_node_starts_without_identity() {
    assert_eq!(UniqueIdsNode::default().identifier(), "");
}

#[test]
fn unique_ids_init_sets_identity() {
    let mut node = UniqueIdsNode::default();
    let body = UniqueIdsBody::Init {
        msg_id: MessageId(1),
        node_id: "n3".to_string(),
        node_ids: vec!["n3".to_string()],
    };
    let replies = node.handle(ids_message("c1", "n3", body)).unwrap();
    assert_eq!(node.identifier(), "n3");
    assert_eq!(replies.len(), 1);
    assert!(matches!(replies[0].body, UniqueIdsBody::InitOk { in_reply_to: MessageId(1) }));
}

#[test]
fn generated_ids_join_node_id_and_counter() {
    let mut node = UniqueIdsNode::default();
    let body = UniqueIdsBody::Init { msg_id: MessageId(1), node_id: "n3".to_string(), node_ids: vec![] };
    node.handle(ids_message("c1", "n3", body)).unwrap();
    for counter in 0..12u64 {
        let (msg_id, in_reply_to, id) = generate(&mut node, 500 + counter);
        assert_eq!(msg_id, MessageId(counter));
        assert_eq!(in_reply_to, MessageId(500 + counter));
        assert_eq!(id, format!("n3-{}", counter));
    }
    assert_eq!(generate(&mut node, 1).2, "n3-12");
}

#[test]
fn generated_id_before_init_has_empty_node_part() {
    let mut node = UniqueIdsNode::default();
    assert_eq!(generate(&mut node, 1).2, "-0");
}

#[test]
fn generated_ids_with_large_counters() {
    let mut node = UniqueIdsNode::starting_at(18446744073709551613);
    let body = UniqueIdsBody::Init { msg_id: MessageId(1), node_id: "n1".to_string(), node_ids: vec![] };
    node.handle(ids_message("c1", "n1", body)).unwrap();
    assert_eq!(generate(&mut node, 1).2, "n1-18446744073709551613");
    assert_eq!(generate(&mut node, 1).2, "n1-18446744073709551614");
    let outcome =
        node.handle(ids_message("c1", "n1", UniqueIdsBody::Generate { msg_id: MessageId(1) }));
    assert_eq!(outcome.unwrap_err(), HandleError::MessageIdsExhausted);
}

#[test]
fn unique_ids_passes_over_reply_bodies() {
    let mut node = UniqueIdsNode::default();
    let bodies = vec![
        UniqueIdsBody::InitOk { in_reply_to: MessageId(1) },
        UniqueIdsBody::GenerateOk {
            msg_id: MessageId(1),
            in_reply_to: MessageId(2),
            id: "x-1".to_string(),
        },
        UniqueIdsBody::Error { in_reply_to: MessageId(1), code: 1, text: "t".to_string() },
    ];
    for body in bodies {
        assert!(node.handle(ids_message("c1", "n1", body)).unwrap().is_empty());
    }
    assert_eq!(generate(&mut node, 1).0, MessageId(0));
}

#[test]
fn decimal_numerals() {
    for (n, expected) in [
        (0u64, "0"),
        (7, "7"),
        (9, "9"),
        (10, "10"),
        (11, "11"),
        (99, "99"),
        (100, "100"),
        (1905, "1905"),
        (1_000_000, "1000000"),
        (u64::MAX, "18446744073709551615"),
    ] {
        let mut text = String::from("id:");
        push_decimal(&mut text, n);
        assert_eq!(text, format!("id:{}", expected));
        assert_eq!(text, format!("id:{}", n));
    }
}
