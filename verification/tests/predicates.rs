use mongrel2::json::JsonVal;
use mongrel2::Headers;
use mongrel2::Request;

fn request_with_headers(headers: Headers) -> Request {
    Request {
        uuid: String::from("u"),
        id: String::from("1"),
        path: String::from("/"),
        headers,
        body: Vec::new(),
        json_body: None,
    }
}

#[test]
fn should_close_on_connection_close() {
    let mut headers = Headers::new();
    headers.add(String::from("connection"), String::from("close"));
    assert!(request_with_headers(headers).should_close());
}

#[test]
fn should_not_close_on_keep_alive() {
    let mut headers = Headers::new();
    headers.add(String::from("connection"), String::from("keep-alive"));
    assert!(!request_with_headers(headers).should_close());
}

#[test]
fn should_close_on_http_1_0_without_connection_header() {
    let mut headers = Headers::new();
    headers.add(String::from("VERSION"), String::from("HTTP/1.0"));
    assert!(request_with_headers(headers).should_close());
}

#[test]
fn should_not_close_on_empty_headers() {
    assert!(!request_with_headers(Headers::new()).should_close());
}

#[test]
fn should_not_close_on_repeated_close_values() {
    // the rule asks for exactly the one-element list
    let mut headers = Headers::new();
    headers.add(String::from("connection"), String::from("close"));
    headers.add(String::from("connection"), String::from("close"));
    assert!(!request_with_headers(headers).should_close());
}

#[test]
fn keep_alive_still_defers_to_the_version_header() {
    let mut headers = Headers::new();
    headers.add(String::from("connection"), String::from("keep-alive"));
    headers.add(String::from("VERSION"), String::from("HTTP/1.0"));
    assert!(request_with_headers(headers).should_close());
}

#[test]
fn is_disconnect_on_the_exact_type() {
    let mut request = request_with_headers(Headers::new());
    request.json_body = Some(vec![(
        String::from("type"),
        JsonVal::Str(String::from("disconnect")),
    )]);
    assert!(request.is_disconnect());
}

#[test]
fn is_disconnect_is_case_sensitive() {
    let mut request = request_with_headers(Headers::new());
    request.json_body = Some(vec![(
        String::from("type"),
        JsonVal::Str(String::from("Disconnect")),
    )]);
    assert!(!request.is_disconnect());
}

#[test]
fn no_json_body_is_no_disconnect() {
    assert!(!request_with_headers(Headers::new()).is_disconnect());
}

#[test]
fn missing_or_non_string_type_is_no_disconnect() {
    let mut request = request_with_headers(Headers::new());
    request.json_body = Some(vec![(String::from("kind"), JsonVal::Str(String::from("disconnect")))]);
    assert!(!request.is_disconnect());
    request.json_body = Some(vec![(String::from("type"), JsonVal::Other)]);
    assert!(!request.is_disconnect());
}

#[test]
fn disconnect_message_end_to_end() {
    let request =
        mongrel2::parse(b"u 1 @* 16:6:METHOD,4:JSON,}21:{\"type\":\"disconnect\"},").unwrap();
    assert!(request.is_disconnect());
    assert!(!request.should_close());
}

#[test]
fn headers_keep_insertion_order_and_merge_values() {
    let mut headers = Headers::new();
    headers.add(String::from("b"), String::from("1"));
    headers.add(String::from("a"), String::from("2"));
    headers.add(String::from("b"), String::from("3"));
    assert_eq!(headers.len(), 2);
    assert_eq!(headers.key_at(0), "b");
    assert_eq!(headers.key_at(1), "a");
    assert_eq!(headers.values_at(0), &vec![String::from("1"), String::from("3")]);
    assert_eq!(headers.get("a").unwrap(), &vec![String::from("2")]);
    assert!(headers.get("c").is_none());
}
