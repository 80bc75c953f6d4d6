use gossip_nodes::framing::{frames, next_frame, ObjectStream};

#[test]
fn one_object_is_one_frame() {
    let input = br#"{"src":"c1","dest":"n1","body":{"type":"read","msg_id":1}}"#;
    assert_eq!(next_frame(input, 0), Some((0, input.len())));
    assert_eq!(frames(input), vec![(0, input.len())]);
}

#[test]
fn objects_need_no_separator() {
    let input = br#"{"a":1}{"b":{"c":2}}{}"#;
    assert_eq!(frames(input), vec![(0, 7), (7, 20), (20, 22)]);
}

#[test]
fn bytes_between_objects_are_passed_over() {
    let input = b"  \n{\"a\":1}\r\n\t {\"b\":2} , 17 ";
    assert_eq!(frames(input), vec![(3, 10), (14, 21)]);
    assert_eq!(next_frame(input, 4), Some((14, 21)));
    assert_eq!(next_frame(input, 21), None);
}

#[test]
fn braces_inside_strings_do_not_count() {
    let input = br#"{"echo":"}{ \" }\\"}{"x":"{"}"#;
    assert_eq!(frames(input), vec![(0, 20), (20, 29)]);
}

#[test]
fn an_open_object_is_not_a_frame() {
    assert_eq!(next_frame(br#"{"a":{"b":1}"#, 0), None);
    assert_eq!(next_frame(br#"{"a":"}"#, 0), None);
    assert_eq!(next_frame(b"", 0), None);
    assert_eq!(next_frame(b"no object here }", 0), None);
    assert_eq!(next_frame(b"{}", 5), None);
    assert!(frames(b"   ").is_empty());
}

#[test]
fn a_malformed_object_between_two_good_ones_is_framed_apart() {
    let first = br#"{"src":"c1","dest":"n1","body":{"type":"read","msg_id":1}}"#;
    let broken = br#"{"src":12,"dest":,"body":{"type":"nonsense"}}"#;
    let last = br#"{"src":"c1","dest":"n1","body":{"type":"read","msg_id":2}}"#;
    let mut input = Vec::new();
    input.extend_from_slice(first);
    input.push(b'\n');
    input.extend_from_slice(broken);
    input.push(b'\n');
    input.extend_from_slice(last);
    input.push(b'\n');
    let found = frames(&input);
    assert_eq!(found.len(), 3);
    assert_eq!(&input[found[0].0..found[0].1], &first[..]);
    assert_eq!(&input[found[1].0..found[1].1], &broken[..]);
    assert_eq!(&input[found[2].0..found[2].1], &last[..]);
}

#[test]
fn stream_hands_out_objects_as_they_complete() {
    let mut stream = ObjectStream::new();
    assert!(stream.feed(b"").is_empty());
    assert!(stream.feed(b" {\"a\":").is_empty());
    assert!(stream.feed(b"\"}").is_empty());
    assert_eq!(stream.feed(b"\"}{\"b\":2}\n{\"c\""), vec![b"{\"a\":\"}\"}".to_vec(), b"{\"b\":2}".to_vec()]);
    assert_eq!(stream.feed(b":3}"), vec![b"{\"c\":3}".to_vec()]);
    assert!(stream.feed(b"\n").is_empty());
}

#[test]
fn stream_fed_byte_by_byte_finds_the_same_objects() {
    let input = br#"{"a":{"b":"x\"}"}} junk {"c":[{"d":1},{"e":2}]}"#;
    let whole: Vec<Vec<u8>> = frames(input).iter().map(|(s, e)| input[*s..*e].to_vec()).collect();
    assert_eq!(whole.len(), 2);
    let mut stream = ObjectStream::new();
    let mut pieces = Vec::new();
    for byte in input.iter() {
        pieces.extend(stream.feed(&[*byte]));
    }
    assert_eq!(pieces, whole);
}

#[test]
fn a_malformed_object_does_not_stop_the_ones_around_it_from_decoding() {
    let mut input = String::new();
    input.push_str(r#"{"src":"c1","dest":"n1","body":{"type":"broadcast","msg_id":1,"message":5}}"#);
    input.push_str(r#"{"src":"c1","dest":,"body":{"type":"broadcast"}}"#);
    input.push('\n');
    input.push_str(r#"{"src":"c1","dest":"n1","body":{"type":"read","msg_id":2}}"#);
    let mut stream = ObjectStream::new();
    let objects = stream.feed(input.as_bytes());
    let decoded: Vec<Option<serde_json::Value>> =
        objects.iter().map(|object| serde_json::from_slice(object).ok()).collect();
    assert_eq!(decoded.len(), 3);
    assert!(decoded[1].is_none());
    let first = decoded[0].as_ref().unwrap();
    assert_eq!(first.get("body").and_then(|b| b.get("message")).and_then(|m| m.as_u64()), Some(5));
    let last = decoded[2].as_ref().unwrap();
    assert_eq!(last.get("body").and_then(|b| b.get("type")).and_then(|t| t.as_str()), Some("read"));
}
