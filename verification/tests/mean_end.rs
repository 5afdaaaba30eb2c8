use protohackers::mean_end::{decode_i32_be, decode_message, encode_i32_be, MeanSession, Message, PriceHistory};

fn frame(tag: u8, a: i32, b: i32) -> Vec<u8> {
    let mut f = vec![tag];
    f.extend_from_slice(&a.to_be_bytes());
    f.extend_from_slice(&b.to_be_bytes());
    f
}

#[test]
fn decode_big_endian_values() {
    assert_eq!(decode_i32_be(&[0x00, 0x00, 0x30, 0x39], 0), 12345);
    assert_eq!(decode_i32_be(&[0xff, 0xff, 0xff, 0xff], 0), -1);
    assert_eq!(decode_i32_be(&[0x80, 0x00, 0x00, 0x00], 0), i32::MIN);
    assert_eq!(decode_i32_be(&[0x7f, 0xff, 0xff, 0xff], 0), i32::MAX);
    assert_eq!(decode_i32_be(&[9, 9, 0x00, 0x00, 0x00, 0x65], 2), 101);
}

#[test]
fn encode_big_endian_values() {
    assert_eq!(encode_i32_be(101), vec![0x00, 0x00, 0x00, 0x65]);
    assert_eq!(encode_i32_be(-1), vec![0xff, 0xff, 0xff, 0xff]);
    assert_eq!(encode_i32_be(i32::MIN), vec![0x80, 0x00, 0x00, 0x00]);
    assert_eq!(encode_i32_be(-5), (-5i32).to_be_bytes().to_vec());
}

#[test]
fn encode_then_decode_roundtrip() {
    for v in [0, 1, -1, 255, 256, -256, 65536, i32::MAX, i32::MIN, 123456789, -987654321] {
        assert_eq!(decode_i32_be(&encode_i32_be(v), 0), v);
    }
}

#[test]
fn decode_frames() {
    let insert = frame(b'I', 12345, 101);
    assert_eq!(decode_message(&insert, 0), Message::Insert { timestamp: 12345, price: 101 });
    let query = frame(b'Q', 1000, 100000);
    assert_eq!(decode_message(&query, 0), Message::Query { mintime: 1000, maxtime: 100000 });
    let other = frame(b'X', 1, 2);
    assert_eq!(decode_message(&other, 0), Message::Unknown);
    let mut shifted = vec![0u8, 0];
    shifted.extend_from_slice(&frame(b'I', -7, -8));
    assert_eq!(decode_message(&shifted, 2), Message::Insert { timestamp: -7, price: -8 });
}

#[test]
fn history_mean_over_window() {
    let mut h = PriceHistory::new();
    assert_eq!(h.mean(i32::MIN, i32::MAX), 0);
    h.insert(12345, 101);
    h.insert(12346, 102);
    h.insert(12347, 100);
    h.insert(40960, 5);
    assert_eq!(h.mean(12288, 16384), 101);
    assert_eq!(h.mean(12346, 12346), 102);
    assert_eq!(h.mean(0, 100), 0);
    assert_eq!(h.mean(16384, 12288), 0);
    assert_eq!(h.mean(i32::MIN, i32::MAX), (101 + 102 + 100 + 5) / 4);
}

#[test]
fn insert_replaces_same_timestamp() {
    let mut h = PriceHistory::new();
    h.insert(7, 10);
    h.insert(7, 30);
    assert_eq!(h.mean(7, 7), 30);
    assert_eq!(h.mean(0, 100), 30);
}

#[test]
fn mean_rounds_toward_zero() {
    let mut h = PriceHistory::new();
    h.insert(1, -3);
    h.insert(2, -4);
    assert_eq!(h.mean(1, 2), -3);
    h.insert(3, 8);
    assert_eq!(h.mean(1, 3), 0);
    let mut g = PriceHistory::new();
    g.insert(1, 3);
    g.insert(2, 4);
    assert_eq!(g.mean(1, 2), 3);
}

#[test]
fn mean_of_extreme_prices_is_exact() {
    let mut h = PriceHistory::new();
    h.insert(1, i32::MAX);
    h.insert(2, i32::MAX);
    h.insert(3, i32::MAX);
    assert_eq!(h.mean(1, 3), i32::MAX);
    let mut g = PriceHistory::new();
    g.insert(1, i32::MIN);
    g.insert(2, i32::MIN);
    assert_eq!(g.mean(0, 5), i32::MIN);
}

fn example_stream() -> Vec<u8> {
    let mut s = Vec::new();
    s.extend(frame(b'I', 12345, 101));
    s.extend(frame(b'I', 12346, 102));
    s.extend(frame(b'I', 12347, 100));
    s.extend(frame(b'I', 40960, 5));
    s.extend(frame(b'Q', 12288, 16384));
    s
}

#[test]
fn session_answers_example_stream() {
    let mut session = MeanSession::new();
    let answers = session.receive(&example_stream());
    assert_eq!(answers, vec![0x00, 0x00, 0x00, 0x65]);
    assert!(session.remainder().is_empty());
}

#[test]
fn session_answers_do_not_depend_on_splitting() {
    let stream = example_stream();
    for piece in 1..stream.len() + 1 {
        let mut session = MeanSession::new();
        let mut answers = Vec::new();
        for chunk in stream.chunks(piece) {
            answers.extend(session.receive(chunk));
        }
        assert_eq!(answers, vec![0x00, 0x00, 0x00, 0x65]);
        assert!(session.remainder().is_empty());
    }
}

#[test]
fn session_keeps_partial_frame_and_ignores_unknown() {
    let mut session = MeanSession::new();
    let mut data = frame(b'Z', 1, 2);
    data.extend(frame(b'I', 5, 50));
    data.extend(frame(b'Q', 0, 10));
    data.extend_from_slice(&[b'Q', 0, 0]);
    let answers = session.receive(&data);
    assert_eq!(answers, 50i32.to_be_bytes().to_vec());
    assert_eq!(session.remainder(), vec![b'Q', 0, 0]);
    let more = session.receive(&[0, 0, 0, 0, 0, 0x10]);
    assert_eq!(more, 50i32.to_be_bytes().to_vec());
    assert!(session.remainder().is_empty());
}

#[test]
fn session_empty_query_answers_zero() {
    let mut session = MeanSession::new();
    let answers = session.receive(&frame(b'Q', 10, 0));
    assert_eq!(answers, vec![0, 0, 0, 0]);
}
