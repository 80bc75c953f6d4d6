use gossip_nodes::node_map::NodeMap;
use gossip_nodes::proto::{BroadcastMessage, Message, MessageId};
use gossip_nodes::value_set::ValueSet;

#[test]
fn message_new_keeps_its_parts() {
    let message = Message::new("a".to_string(), "b".to_string(), MessageId(4));
    assert_eq!(message.src, "a");
    assert_eq!(message.dest, "b");
    assert_eq!(message.body, MessageId(4));
}

#[test]
fn value_set_starts_empty() {
    let set = ValueSet::new();
    assert_eq!(set.len(), 0);
    assert!(!set.contains(BroadcastMessage(0)));
    assert!(set.to_vec().is_empty());
}

#[test]
fn value_set_insert_reports_new_values() {
    let mut set = ValueSet::new();
    assert!(set.insert(BroadcastMessage(5)));
    assert!(set.insert(BroadcastMessage(7)));
    assert!(!set.insert(BroadcastMessage(5)));
    assert!(set.insert(BroadcastMessage(9)));
    assert_eq!(set.len(), 3);
    assert!(set.contains(BroadcastMessage(7)));
    assert!(!set.contains(BroadcastMessage(8)));
    assert_eq!(set.to_vec(), vec![BroadcastMessage(5), BroadcastMessage(7), BroadcastMessage(9)]);
}

#[test]
fn value_set_difference_keeps_order() {
    let mut own = ValueSet::new();
    for v in [4, 1, 3, 2] {
        own.insert(BroadcastMessage(v));
    }
    let mut other = ValueSet::new();
    for v in [3, 9, 4] {
        other.insert(BroadcastMessage(v));
    }
    assert_eq!(own.difference(&other), vec![BroadcastMessage(1), BroadcastMessage(2)]);
    assert_eq!(other.difference(&own), vec![BroadcastMessage(9)]);
    assert!(own.difference(&own).is_empty());
    assert_eq!(own.difference(&ValueSet::new()), own.to_vec());
}

#[test]
fn value_set_copies_are_independent() {
    let mut set = ValueSet::new();
    set.insert(BroadcastMessage(1));
    let snapshot = set.snapshot();
    let clone = set.clone();
    set.insert(BroadcastMessage(2));
    assert_eq!(snapshot.to_vec(), vec![BroadcastMessage(1)]);
    assert_eq!(clone.to_vec(), vec![BroadcastMessage(1)]);
    assert_eq!(set.len(), 2);
}

#[test]
fn node_map_starts_empty() {
    let map: NodeMap<u64> = NodeMap::new();
    assert_eq!(map.len(), 0);
    assert!(map.get(&"n1".to_string()).is_none());
    assert!(!map.contains_key(&"n1".to_string()));
    assert!(map.entries().is_empty());
}

#[test]
fn node_map_insert_get_remove() {
    let mut map: NodeMap<u64> = NodeMap::new();
    assert_eq!(map.insert("n1".to_string(), 1), None);
    assert_eq!(map.insert("n2".to_string(), 2), None);
    assert_eq!(map.insert("n1".to_string(), 3), Some(1));
    assert_eq!(map.len(), 2);
    assert_eq!(map.get(&"n1".to_string()), Some(&3));
    assert_eq!(map.get(&"n2".to_string()), Some(&2));
    assert_eq!(map.get(&"n3".to_string()), None);
    assert!(map.contains_key(&"n2".to_string()));
    assert_eq!(map.remove(&"n3".to_string()), None);
    assert_eq!(map.remove(&"n1".to_string()), Some(3));
    assert_eq!(map.remove(&"n1".to_string()), None);
    assert_eq!(map.len(), 1);
    assert_eq!(map.get(&"n2".to_string()), Some(&2));
}

#[test]
fn node_map_entries_hold_each_key_once() {
    let mut map: NodeMap<Vec<String>> = NodeMap::new();
    map.insert("a".to_string(), vec!["b".to_string()]);
    map.insert("b".to_string(), vec!["a".to_string(), "c".to_string()]);
    map.insert("a".to_string(), vec![]);
    let mut entries = map.entries().clone();
    entries.sort();
    assert_eq!(
        entries,
        vec![
            ("a".to_string(), vec![]),
            ("b".to_string(), vec!["a".to_string(), "c".to_string()]),
        ]
    );
    let copy = map.clone();
    map.remove(&"b".to_string());
    assert_eq!(copy.len(), 2);
    assert_eq!(copy.get(&"b".to_string()), Some(&vec!["a".to_string(), "c".to_string()]));
}
