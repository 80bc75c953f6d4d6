use gossip_nodes::broadcast::BroadcastNode;
use gossip_nodes::node_map::NodeMap;
use gossip_nodes::proto::{
    BroadcastBody, BroadcastEvent, BroadcastMessage, HandleError, Message, MessageHandler,
    MessageId,
};
use gossip_nodes::value_set::ValueSet;

fn message(src: &str, dest: &str, body: BroadcastBody) -> BroadcastEvent {
    BroadcastEvent::Message(Message::new(src.to_string(), dest.to_string(), body))
}

fn init(node: &mut BroadcastNode, name: &str) {
    let body = BroadcastBody::Init {
        msg_id: MessageId(1),
        node_id: name.to_string(),
        node_ids: vec![name.to_string()],
    };
    let replies = node.handle(message("c0", name, body)).unwrap();
    assert_eq!(replies.len(), 1);
}

fn broadcast(node: &mut BroadcastNode, from: &str, value: u64) -> Message<BroadcastBody> {
    let to = node.identifier().to_string();
    let body = BroadcastBody::Broadcast { msg_id: MessageId(100), message: BroadcastMessage(value) };
    let mut replies = node.handle(message(from, &to, body)).unwrap();
    assert_eq!(replies.len(), 1);
    replies.remove(0)
}

fn read(node: &mut BroadcastNode) -> (MessageId, Vec<u64>) {
    let to = node.identifier().to_string();
    let replies = node.handle(message("c9", &to, BroadcastBody::Read { msg_id: MessageId(55) })).unwrap();
    assert_eq!(replies.len(), 1);
    assert_eq!(replies[0].src, to);
    assert_eq!(replies[0].dest, "c9");
    match &replies[0].body {
        BroadcastBody::ReadOk { msg_id, in_reply_to, messages } => {
            assert_eq!(*in_reply_to, MessageId(55));
            (*msg_id, messages.to_vec().iter().map(|m| m.0).collect())
        }
        other => panic!("expected read_ok, got {:?}", other),
    }
}

fn topology(entries: &[(&str, &[&str])]) -> NodeMap<Vec<String>> {
    let mut map = NodeMap::new();
    for (node, links) in entries {
        map.insert(node.to_string(), links.iter().map(|l| l.to_string()).collect());
    }
    map
}

fn set_topology(node: &mut BroadcastNode, entries: &[(&str, &[&str])]) {
    let to = node.identifier().to_string();
    let body = BroadcastBody::Topology { msg_id: MessageId(2), topology: topology(entries) };
    let replies = node.handle(message("c0", &to, body)).unwrap();
    assert_eq!(replies.len(), 1);
    assert!(matches!(replies[0].body, BroadcastBody::TopologyOk { .. }));
}

fn sorted(mut values: Vec<u64>) -> Vec<u64> {
    values.sort();
    values
}

#[test]
fn new_node_has_empty_identity() {
    let node = BroadcastNode::new();
    assert_eq!(node.identifier(), "");
}

#[test]
fn init_sets_identity_and_replies_init_ok() {
    let mut node = BroadcastNode::new();
    let body = BroadcastBody::Init {
        msg_id: MessageId(7),
        node_id: "n1".to_string(),
        node_ids: vec!["n1".to_string(), "n2".to_string()],
    };
    let replies = node.handle(message("c1", "n1", body)).unwrap();
    assert_eq!(node.identifier(), "n1");
    assert_eq!(replies.len(), 1);
    assert_eq!(replies[0].src, "n1");
    assert_eq!(replies[0].dest, "c1");
    match replies[0].body {
        BroadcastBody::InitOk { in_reply_to } => assert_eq!(in_reply_to, MessageId(7)),
        ref other => panic!("expected init_ok, got {:?}", other),
    }
}

#[test]
fn init_may_be_repeated_and_takes_no_id() {
    let mut node = BroadcastNode::new();
    init(&mut node, "n1");
    init(&mut node, "n2");
    assert_eq!(node.identifier(), "n2");
    let (id, _) = read(&mut node);
    assert_eq!(id, MessageId(0));
}

#[test]
fn broadcast_replies_broadcast_ok_with_swapped_ends() {
    let mut node = BroadcastNode::new();
    init(&mut node, "n1");
    let reply = broadcast(&mut node, "c4", 123);
    assert_eq!(reply.src, "n1");
    assert_eq!(reply.dest, "c4");
    match reply.body {
        BroadcastBody::BroadcastOk { msg_id, in_reply_to } => {
            assert_eq!(msg_id, MessageId(0));
            assert_eq!(in_reply_to, MessageId(100));
        }
        other => panic!("expected broadcast_ok, got {:?}", other),
    }
}

#[test]
fn message_ids_increase_from_zero() {
    let mut node = BroadcastNode::new();
    init(&mut node, "n1");
    let mut ids = Vec::new();
    match broadcast(&mut node, "c1", 5).body {
        BroadcastBody::BroadcastOk { msg_id, .. } => ids.push(msg_id.0),
        other => panic!("unexpected {:?}", other),
    }
    ids.push(read(&mut node).0 .0);
    let body = BroadcastBody::Topology {
        msg_id: MessageId(3),
        topology: topology(&[("n1", &["n2"])]),
    };
    match node.handle(message("c1", "n1", body)).unwrap()[0].body {
        BroadcastBody::TopologyOk { msg_id, in_reply_to } => {
            assert_eq!(in_reply_to, MessageId(3));
            ids.push(msg_id.0);
        }
        ref other => panic!("unexpected {:?}", other),
    }
    for sent in node.handle(BroadcastEvent::Gossip).unwrap() {
        match sent.body {
            BroadcastBody::Broadcast { msg_id, .. } => ids.push(msg_id.0),
            other => panic!("unexpected {:?}", other),
        }
    }
    ids.push(read(&mut node).0 .0);
    assert_eq!(ids, vec![0, 1, 2, 3, 4]);
}

#[test]
fn broadcast_twice_reads_as_once() {
    let mut once = BroadcastNode::new();
    init(&mut once, "n1");
    broadcast(&mut once, "c1", 42);
    let mut twice = BroadcastNode::new();
    init(&mut twice, "n1");
    broadcast(&mut twice, "c1", 42);
    broadcast(&mut twice, "c2", 42);
    assert_eq!(read(&mut once).1, vec![42]);
    assert_eq!(read(&mut twice).1, vec![42]);
}

#[test]
fn read_reflects_all_broadcasts_in_any_order() {
    let orders: [[u64; 4]; 6] = [
        [5, 7, 5, 9],
        [5, 5, 7, 9],
        [9, 7, 5, 5],
        [7, 5, 9, 5],
        [5, 9, 5, 7],
        [9, 5, 7, 5],
    ];
    for order in orders {
        let mut node = BroadcastNode::new();
        init(&mut node, "n1");
        for value in order {
            broadcast(&mut node, "c1", value);
        }
        let (_, values) = read(&mut node);
        assert_eq!(values.len(), 3);
        assert_eq!(sorted(values), vec![5, 7, 9]);
    }
}

#[test]
fn read_lists_values_in_order_of_arrival() {
    let mut node = BroadcastNode::new();
    init(&mut node, "n1");
    for value in [9, 5, 9, 7] {
        broadcast(&mut node, "c1", value);
    }
    assert_eq!(read(&mut node).1, vec![9, 5, 7]);
}

#[test]
fn read_before_any_broadcast_is_empty() {
    let mut node = BroadcastNode::new();
    init(&mut node, "n1");
    let (id, values) = read(&mut node);
    assert_eq!(id, MessageId(0));
    assert!(values.is_empty());
}

#[test]
fn read_is_a_snapshot() {
    let mut node = BroadcastNode::new();
    init(&mut node, "n1");
    broadcast(&mut node, "c1", 1);
    let replies = node.handle(message("c1", "n1", BroadcastBody::Read { msg_id: MessageId(1) })).unwrap();
    broadcast(&mut node, "c1", 2);
    match &replies[0].body {
        BroadcastBody::ReadOk { messages, .. } => {
            assert_eq!(messages.to_vec(), vec![BroadcastMessage(1)]);
        }
        other => panic!("unexpected {:?}", other),
    }
    assert_eq!(read(&mut node).1, vec![1, 2]);
}

#[test]
fn topology_without_own_entry_is_refused() {
    let mut node = BroadcastNode::new();
    init(&mut node, "n1");
    set_topology(&mut node, &[("n1", &["n2"]), ("n2", &["n1"])]);
    broadcast(&mut node, "c1", 8);
    let body = BroadcastBody::Topology {
        msg_id: MessageId(4),
        topology: topology(&[("n2", &["n3"]), ("n3", &["n2"])]),
    };
    let outcome = node.handle(message("c1", "n1", body));
    assert_eq!(outcome.unwrap_err(), HandleError::MissingTopologyEntry);
    // the refused topology left the neighbours and the counter as they were
    let sent = node.handle(BroadcastEvent::Gossip).unwrap();
    assert_eq!(sent.len(), 1);
    assert_eq!(sent[0].dest, "n2");
    match sent[0].body {
        BroadcastBody::Broadcast { msg_id, message } => {
            assert_eq!(msg_id, MessageId(2));
            assert_eq!(message, BroadcastMessage(8));
        }
        ref other => panic!("unexpected {:?}", other),
    }
}

#[test]
fn empty_topology_is_refused() {
    let mut node = BroadcastNode::new();
    init(&mut node, "n1");
    let body = BroadcastBody::Topology { msg_id: MessageId(4), topology: NodeMap::new() };
    assert_eq!(
        node.handle(message("c1", "n1", body)).unwrap_err(),
        HandleError::MissingTopologyEntry
    );
}

#[test]
fn topology_replaces_links() {
    let mut node = BroadcastNode::new();
    init(&mut node, "n1");
    broadcast(&mut node, "c1", 3);
    set_topology(&mut node, &[("n1", &["n2", "n3"])]);
    set_topology(&mut node, &[("n1", &["n4"])]);
    let sent = node.handle(BroadcastEvent::Gossip).unwrap();
    assert_eq!(sent.len(), 1);
    assert_eq!(sent[0].src, "n1");
    assert_eq!(sent[0].dest, "n4");
}

#[test]
fn gossip_without_links_sends_nothing() {
    let mut node = BroadcastNode::new();
    init(&mut node, "n1");
    broadcast(&mut node, "c1", 3);
    assert!(node.handle(BroadcastEvent::Gossip).unwrap().is_empty());
    assert_eq!(read(&mut node).0, MessageId(1));
}

#[test]
fn gossip_sends_each_neighbour_what_it_lacks() {
    let mut node = BroadcastNode::new();
    init(&mut node, "n1");
    set_topology(&mut node, &[("n1", &["n2", "n3"])]);
    broadcast(&mut node, "c1", 10);
    broadcast(&mut node, "n2", 20);
    broadcast(&mut node, "n3", 10);
    // n1 knows 10 and 20; n2 is known to have 20, n3 to have 10
    let sent = node.handle(BroadcastEvent::Gossip).unwrap();
    let summary: Vec<(String, String, u64, u64)> = sent
        .iter()
        .map(|m| match m.body {
            BroadcastBody::Broadcast { msg_id, message } => {
                (m.src.clone(), m.dest.clone(), msg_id.0, message.0)
            }
            ref other => panic!("unexpected {:?}", other),
        })
        .collect();
    assert_eq!(
        summary,
        vec![
            ("n1".to_string(), "n2".to_string(), 4, 10),
            ("n1".to_string(), "n3".to_string(), 5, 20),
        ]
    );
    assert_eq!(read(&mut node).0, MessageId(6));
}

#[test]
fn gossip_repeats_until_the_neighbour_is_heard_from() {
    let mut node = BroadcastNode::new();
    init(&mut node, "n1");
    set_topology(&mut node, &[("n1", &["n2"])]);
    broadcast(&mut node, "c1", 10);
    assert_eq!(node.handle(BroadcastEvent::Gossip).unwrap().len(), 1);
    assert_eq!(node.handle(BroadcastEvent::Gossip).unwrap().len(), 1);
    broadcast(&mut node, "n2", 10);
    assert!(node.handle(BroadcastEvent::Gossip).unwrap().is_empty());
}

#[test]
fn gossip_reaches_the_far_end_of_a_line() {
    let line: [(&str, &[&str]); 3] = [("a", &["b"]), ("b", &["a", "c"]), ("c", &["b"])];
    let names = ["a", "b", "c"];
    let mut nodes: Vec<BroadcastNode> = Vec::new();
    for name in names {
        let mut node = BroadcastNode::new();
        init(&mut node, name);
        set_topology(&mut node, &line);
        nodes.push(node);
    }
    broadcast(&mut nodes[0], "c1", 77);
    assert!(read(&mut nodes[2]).1.is_empty());
    let mut ticks = 0;
    while !read(&mut nodes[2]).1.contains(&77) {
        assert!(ticks < 2, "the value did not arrive within two rounds");
        ticks += 1;
        let mut in_flight = Vec::new();
        for node in nodes.iter_mut() {
            in_flight.extend(node.handle(BroadcastEvent::Gossip).unwrap());
        }
        for sent in in_flight {
            let to = names.iter().position(|n| *n == sent.dest).unwrap();
            // the answers are broadcast_ok, which the sender passes over
            let answers = nodes[to].handle(BroadcastEvent::Message(sent)).unwrap();
            for answer in answers {
                let back = names.iter().position(|n| *n == answer.dest).unwrap();
                assert!(nodes[back].handle(BroadcastEvent::Message(answer)).unwrap().is_empty());
            }
        }
    }
    assert_eq!(ticks, 2);
    assert_eq!(read(&mut nodes[0]).1, vec![77]);
    assert_eq!(read(&mut nodes[1]).1, vec![77]);
    assert_eq!(read(&mut nodes[2]).1, vec![77]);
}

#[test]
fn read_holds_only_what_was_received() {
    let mut n1 = BroadcastNode::new();
    let mut n2 = BroadcastNode::new();
    init(&mut n1, "n1");
    init(&mut n2, "n2");
    set_topology(&mut n1, &[("n1", &["n2"]), ("n2", &["n1"])]);
    set_topology(&mut n2, &[("n1", &["n2"]), ("n2", &["n1"])]);
    broadcast(&mut n1, "c1", 1);
    broadcast(&mut n2, "c1", 2);
    assert_eq!(read(&mut n1).1, vec![1]);
    assert_eq!(read(&mut n2).1, vec![2]);
    // n1 gossips, but the message is never delivered
    assert_eq!(n1.handle(BroadcastEvent::Gossip).unwrap().len(), 1);
    assert_eq!(read(&mut n2).1, vec![2]);
}

#[test]
fn reply_bodies_are_passed_over() {
    let mut node = BroadcastNode::new();
    init(&mut node, "n1");
    set_topology(&mut node, &[("n1", &["n2"])]);
    broadcast(&mut node, "c1", 6);
    let mut values = ValueSet::new();
    values.insert(BroadcastMessage(99));
    let bodies = vec![
        BroadcastBody::InitOk { in_reply_to: MessageId(1) },
        BroadcastBody::BroadcastOk { msg_id: MessageId(1), in_reply_to: MessageId(2) },
        BroadcastBody::ReadOk { msg_id: MessageId(1), in_reply_to: MessageId(2), messages: values },
        BroadcastBody::TopologyOk { msg_id: MessageId(1), in_reply_to: MessageId(2) },
        BroadcastBody::Error { in_reply_to: MessageId(1), code: 13, text: "crash".to_string() },
    ];
    for body in bodies {
        assert!(node.handle(message("n2", "n1", body)).unwrap().is_empty());
    }
    assert_eq!(node.identifier(), "n1");
    let (id, values) = read(&mut node);
    assert_eq!(id, MessageId(2));
    assert_eq!(values, vec![6]);
    assert_eq!(node.handle(BroadcastEvent::Gossip).unwrap().len(), 1);
}

#[test]
fn broadcast_from_self_is_recorded_once() {
    let mut node = BroadcastNode::new();
    init(&mut node, "n1");
    broadcast(&mut node, "n1", 4);
    assert_eq!(read(&mut node).1, vec![4]);
}

#[test]
fn exhausted_ids_refuse_requests_and_change_nothing() {
    let mut node = BroadcastNode::starting_at(u64::MAX - 1);
    init(&mut node, "n1");
    set_topology(&mut node, &[("n1", &["n2"])]);
    // the topology took the last id that can be followed by another
    let body = BroadcastBody::Broadcast { msg_id: MessageId(1), message: BroadcastMessage(5) };
    assert_eq!(
        node.handle(message("c1", "n1", body)).unwrap_err(),
        HandleError::MessageIdsExhausted
    );
    assert_eq!(
        node.handle(message("c1", "n1", BroadcastBody::Read { msg_id: MessageId(1) })).unwrap_err(),
        HandleError::MessageIdsExhausted
    );
    let body = BroadcastBody::Topology { msg_id: MessageId(1), topology: topology(&[("n1", &[])]) };
    assert_eq!(
        node.handle(message("c1", "n1", body)).unwrap_err(),
        HandleError::MessageIdsExhausted
    );
    // nothing was learned, so there is nothing to gossip and the round succeeds
    assert!(node.handle(BroadcastEvent::Gossip).unwrap().is_empty());
}

#[test]
fn gossip_that_needs_too_many_ids_is_refused_whole() {
    let mut node = BroadcastNode::starting_at(u64::MAX - 4);
    init(&mut node, "n1");
    set_topology(&mut node, &[("n1", &["n2", "n3"])]);
    broadcast(&mut node, "c1", 1);
    broadcast(&mut node, "c1", 2);
    // the counter stands at MAX - 1; four messages are pending
    assert_eq!(
        node.handle(BroadcastEvent::Gossip).unwrap_err(),
        HandleError::MessageIdsExhausted
    );
    let (id, values) = read(&mut node);
    assert_eq!(id, MessageId(u64::MAX - 1));
    assert_eq!(values, vec![1, 2]);
}

#[test]
fn gossip_may_use_the_last_ids() {
    let mut node = BroadcastNode::starting_at(u64::MAX - 3);
    init(&mut node, "n1");
    set_topology(&mut node, &[("n1", &["n2"])]);
    broadcast(&mut node, "c1", 1);
    let sent = node.handle(BroadcastEvent::Gossip).unwrap();
    assert_eq!(sent.len(), 1);
    match sent[0].body {
        BroadcastBody::Broadcast { msg_id, .. } => assert_eq!(msg_id, MessageId(u64::MAX - 1)),
        ref other => panic!("unexpected {:?}", other),
    }
}

#[test]
fn missing_topology_entry_comes_before_exhausted_ids() {
    let mut node = BroadcastNode::starting_at(u64::MAX);
    init(&mut node, "n1");
    let body = BroadcastBody::Topology { msg_id: MessageId(1), topology: topology(&[("n2", &[])]) };
    assert_eq!(
        node.handle(message("c1", "n1", body)).unwrap_err(),
        HandleError::MissingTopologyEntry
    );
}

#[test]
fn handle_error_descriptions() {
    assert_eq!(
        HandleError::MissingTopologyEntry.description(),
        "Node id expected in network topology"
    );
    assert_eq!(HandleError::MessageIdsExhausted.description(), "Message ids exhausted");
}

#[test]
fn events_are_made_from_messages() {
    let wrapped = BroadcastEvent::from(Message::new(
        "a".to_string(),
        "b".to_string(),
        BroadcastBody::Read { msg_id: MessageId(3) },
    ));
    match wrapped {
        BroadcastEvent::Message(m) => {
            assert_eq!(m.src, "a");
            assert_eq!(m.dest, "b");
            assert!(matches!(m.body, BroadcastBody::Read { msg_id: MessageId(3) }));
        }
        BroadcastEvent::Gossip => panic!("expected a message"),
    }
}
