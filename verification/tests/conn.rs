use mongrel2::Connection;

#[test]
fn mongrel2_test() {
    let connection = Connection::new(
        Some(String::from("F0D32575-2ABB-4957-BC8B-12DAC8AFF13A")),
        vec![String::from("tcp://127.0.0.1:9998")],
        vec![String::from("tcp://127.0.0.1:9999")],
    );

    assert_eq!(
        connection.sender_id().as_deref(),
        Some("F0D32575-2ABB-4957-BC8B-12DAC8AFF13A")
    );
    assert_eq!(connection.req_addrs(), &vec![String::from("tcp://127.0.0.1:9998")]);
    assert_eq!(connection.rep_addrs(), &vec![String::from("tcp://127.0.0.1:9999")]);
}

#[test]
fn connection_without_identity() {
    let connection = Connection::new(None, Vec::new(), Vec::new());
    assert!(connection.sender_id().is_none());
    assert!(connection.req_addrs().is_empty());
    assert!(connection.rep_addrs().is_empty());
}
