use protohackers::lines::{append_bytes, find_newline, take_prefix};
use protohackers::smoke_test::EchoSession;

#[test]
fn find_newline_gives_first_position() {
    assert_eq!(find_newline(b"ab\ncd\n"), Some(2));
    assert_eq!(find_newline(b"\n"), Some(0));
    assert_eq!(find_newline(b"no newline"), None);
    assert_eq!(find_newline(b""), None);
}

#[test]
fn append_bytes_concatenates() {
    let mut buffer = vec![1u8, 2];
    append_bytes(&mut buffer, &[3, 4, 5]);
    assert_eq!(buffer, vec![1, 2, 3, 4, 5]);
    append_bytes(&mut buffer, &[]);
    assert_eq!(buffer, vec![1, 2, 3, 4, 5]);
}

#[test]
fn take_prefix_splits_the_buffer() {
    let mut buffer = vec![1u8, 2, 3, 4];
    let prefix = take_prefix(&mut buffer, 3);
    assert_eq!(prefix, vec![1, 2, 3]);
    assert_eq!(buffer, vec![4]);
    let all = take_prefix(&mut buffer, 1);
    assert_eq!(all, vec![4]);
    assert!(buffer.is_empty());
}

#[test]
fn echo_returns_everything_in_order() {
    let mut session = EchoSession::new();
    assert!(session.reply().is_empty());
    session.receive(b"hello ");
    session.receive(b"");
    session.receive(&[0, 255, 10]);
    assert_eq!(session.reply(), b"hello \x00\xff\n".to_vec());
}
