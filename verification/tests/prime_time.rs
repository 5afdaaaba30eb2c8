use protohackers::prime_time::{
    is_known_method, is_prime_number, method_not_found, Number, PrimeAction, PrimeSession, Request,
};

fn request(method: &str, number: Number) -> Request {
    Request { method: method.to_string(), number }
}

#[test]
fn primality_of_numbers() {
    assert!(!is_prime_number(&Number::Float));
    assert!(!is_prime_number(&Number::Integer(-7)));
    assert!(!is_prime_number(&Number::Integer(0)));
    assert!(!is_prime_number(&Number::Integer(1)));
    assert!(is_prime_number(&Number::Integer(2)));
    assert!(is_prime_number(&Number::Integer(3)));
    assert!(!is_prime_number(&Number::Integer(4)));
    assert!(is_prime_number(&Number::Integer(7)));
    assert!(!is_prime_number(&Number::Integer(9)));
    assert!(is_prime_number(&Number::Integer(97)));
    assert!(!is_prime_number(&Number::Integer(561)));
    assert!(is_prime_number(&Number::Integer(1_000_003)));
    assert!(!is_prime_number(&Number::Integer(1_000_001)));
}

#[test]
fn known_method_is_is_prime() {
    assert!(is_known_method(&"isPrime".to_string()));
    assert!(!is_known_method(&"isprime".to_string()));
    assert!(!is_known_method(&"".to_string()));
}

#[test]
fn method_not_found_quotes_the_method() {
    assert_eq!(method_not_found(&"foo".to_string()).error, "Method not found: \"foo\"");
    assert_eq!(method_not_found(&"a\"b".to_string()).error, "Method not found: \"a\\\"b\"");
}

#[test]
fn session_answers_and_consumes_line() {
    let mut session = PrimeSession::new();
    session.receive(b"{\"method\":\"isPrime\",");
    assert!(session.next_line().is_none());
    session.receive(b"\"number\":7}\n{\"rest");
    assert_eq!(session.next_line(), Some(b"{\"method\":\"isPrime\",\"number\":7}\n".to_vec()));
    match session.handle(Ok(request("isPrime", Number::Integer(7)))) {
        PrimeAction::Answer(r) => {
            assert_eq!(r.method, "isPrime");
            assert!(r.prime);
        }
        _ => panic!("expected an answer"),
    }
    assert!(session.next_line().is_none());
    assert_eq!(session.remainder(), b"{\"rest".to_vec());
}

#[test]
fn session_answer_uses_given_verdict() {
    let mut session = PrimeSession::new();
    session.receive(b"x\ny\n");
    match session.answer(request("isPrime", Number::Integer(4)), true) {
        PrimeAction::Answer(r) => assert!(r.prime),
        _ => panic!("expected an answer"),
    }
    assert_eq!(session.remainder(), b"y\n".to_vec());
}

#[test]
fn session_refuses_unknown_method_and_keeps_line() {
    let mut session = PrimeSession::new();
    session.receive(b"{\"method\":\"isEven\",\"number\":4}\n");
    match session.handle(Ok(request("isEven", Number::Integer(4)))) {
        PrimeAction::Refuse(m) => assert_eq!(m.error, "Method not found: \"isEven\""),
        _ => panic!("expected a refusal"),
    }
    assert_eq!(session.remainder(), b"{\"method\":\"isEven\",\"number\":4}\n".to_vec());
}

#[test]
fn session_fails_on_decoding_error() {
    let mut session = PrimeSession::new();
    session.receive(b"garbage\n");
    match session.handle(Err("expected value at line 1 column 1".to_string())) {
        PrimeAction::Fail(m) => assert_eq!(m.error, "expected value at line 1 column 1"),
        _ => panic!("expected a failure"),
    }
    assert_eq!(session.remainder(), b"garbage\n".to_vec());
}

#[test]
fn session_float_and_negative_are_not_prime() {
    let mut session = PrimeSession::new();
    session.receive(b"a\nb\n");
    match session.handle(Ok(request("isPrime", Number::Float))) {
        PrimeAction::Answer(r) => assert!(!r.prime),
        _ => panic!("expected an answer"),
    }
    match session.handle(Ok(request("isPrime", Number::Integer(-3)))) {
        PrimeAction::Answer(r) => assert!(!r.prime),
        _ => panic!("expected an answer"),
    }
    assert!(session.remainder().is_empty());
}
