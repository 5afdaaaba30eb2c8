use protohackers::budget_chat::{
    farewell, join_names, on_line, relay, welcome, Connection, Delivery, Messages, ValueHolder,
};

fn name(s: &str) -> Option<String> {
    Some(s.to_string())
}

#[test]
fn value_holder_read_and_write() {
    let mut h: ValueHolder<String> = ValueHolder::new();
    assert_eq!(h.read(), None);
    assert_eq!(h.write("alice".to_string()), None);
    assert_eq!(h.read(), name("alice"));
    assert_eq!(h.write("bob".to_string()), name("alice"));
    assert_eq!(h.read(), name("bob"));
}

#[test]
fn connection_splits_lines() {
    let mut c = Connection::new();
    assert_eq!(c.get_next_newline_index(), None);
    assert_eq!(c.read_next_chunk(), None);
    c.receive(b"hel");
    assert_eq!(c.read_next_chunk(), None);
    c.receive(b"lo\nworld\nrest");
    assert_eq!(c.get_next_newline_index(), Some(5));
    assert_eq!(c.read_next_chunk(), name("hello\n"));
    assert_eq!(c.read_next_chunk(), name("world\n"));
    assert_eq!(c.read_next_chunk(), None);
    c.receive(b"\n");
    assert_eq!(c.read_next_chunk(), name("rest\n"));
}

#[test]
fn connection_replaces_invalid_utf8() {
    let mut c = Connection::new();
    c.receive(&[b'a', 0xff, b'b', b'\n']);
    assert_eq!(c.read_next_chunk(), name("a\u{fffd}b\n"));
}

#[test]
fn relay_to_named_user() {
    let me = name("alice");
    let others_join = Messages::UserJoining("bob".to_string());
    match relay(&me, &others_join) {
        Delivery::Deliver(t) => assert_eq!(t, "* bob has entered the room\n"),
        _ => panic!("expected a delivery"),
    }
    match relay(&me, &Messages::UserMessage("bob".to_string(), "hi there".to_string())) {
        Delivery::Deliver(t) => assert_eq!(t, "[bob] hi there\n"),
        _ => panic!("expected a delivery"),
    }
    match relay(&me, &Messages::UserDisconnecting("bob".to_string())) {
        Delivery::Deliver(t) => assert_eq!(t, "* bob has left the room\n"),
        _ => panic!("expected a delivery"),
    }
}

#[test]
fn relay_skips_own_events_and_stops_on_own_departure() {
    let me = name("alice");
    assert!(matches!(relay(&me, &Messages::UserJoining("alice".to_string())), Delivery::Skip));
    assert!(matches!(
        relay(&me, &Messages::UserMessage("alice".to_string(), "x".to_string())),
        Delivery::Skip
    ));
    assert!(matches!(relay(&me, &Messages::UserDisconnecting("alice".to_string())), Delivery::Stop));
}

#[test]
fn relay_skips_everything_before_a_name() {
    assert!(matches!(relay(&None, &Messages::UserJoining("bob".to_string())), Delivery::Skip));
    assert!(matches!(relay(&None, &Messages::UserDisconnecting("bob".to_string())), Delivery::Skip));
}

#[test]
fn join_names_with_separator() {
    assert_eq!(join_names(&vec![], ", "), "");
    assert_eq!(join_names(&vec!["a".to_string()], ", "), "a");
    assert_eq!(join_names(&vec!["a".to_string(), "b".to_string(), "c".to_string()], ", "), "a, b, c");
}

#[test]
fn welcome_text_is_the_greeting() {
    assert_eq!(welcome(), "Welcome to budgetchat! What shall I call you?\n");
}

#[test]
fn first_line_names_the_user() {
    let mut holder: ValueHolder<String> = ValueHolder::new();
    let room = vec!["bob".to_string(), "carol".to_string()];
    let o = on_line(&mut holder, &room, "  alice \n");
    assert_eq!(holder.read(), name("alice"));
    assert!(matches!(o.broadcast, Messages::UserJoining(ref n) if n == "alice"));
    assert_eq!(o.reply, name("* The room contains: bob, carol\n"));
    assert_eq!(o.joined, name("alice"));
}

#[test]
fn empty_room_listing() {
    let mut holder: ValueHolder<String> = ValueHolder::new();
    let o = on_line(&mut holder, &vec![], "dave\n");
    assert_eq!(o.reply, name("* The room contains: \n"));
}

#[test]
fn later_lines_are_messages() {
    let mut holder: ValueHolder<String> = ValueHolder::new();
    holder.write("alice".to_string());
    let o = on_line(&mut holder, &vec![], "hello  everyone \r\n");
    assert_eq!(holder.read(), name("alice"));
    assert!(matches!(o.broadcast, Messages::UserMessage(ref n, ref m) if n == "alice" && m == "hello  everyone"));
    assert_eq!(o.reply, None);
    assert_eq!(o.joined, None);
}

#[test]
fn farewell_only_after_a_name() {
    let mut holder: ValueHolder<String> = ValueHolder::new();
    assert!(farewell(&holder).is_none());
    holder.write("alice".to_string());
    assert!(matches!(farewell(&holder), Some(Messages::UserDisconnecting(ref n)) if n == "alice"));
}

#[test]
fn names_lose_unicode_white_space_at_both_ends() {
    let mut holder: ValueHolder<String> = ValueHolder::new();
    let o = on_line(&mut holder, &vec![], "\u{3000}\t b\u{a0}ob \u{2029}\r\n");
    assert_eq!(o.joined, name("b\u{a0}ob"));
    assert_eq!(holder.read(), name("b\u{a0}ob"));
}
