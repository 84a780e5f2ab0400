use mongrel2::parse;
use mongrel2::request::encode_request;
use mongrel2::Headers;

#[test]
fn encode_then_parse_gives_the_fields_back() {
    let mut headers = Headers::new();
    headers.add(String::from("Host"), String::from("example.org"));
    headers.add(String::from("Accept"), String::from("text/html"));
    headers.add(String::from("Accept"), String::from("text/plain"));
    let body = b"some body bytes \x00\xff".to_vec();
    let msg = encode_request("F0D32575", "56", "/handler", &headers, &body);
    let request = parse(&msg).unwrap();
    assert_eq!(request.uuid, "F0D32575");
    assert_eq!(request.id, "56");
    assert_eq!(request.path, "/handler");
    assert_eq!(request.headers, headers);
    assert_eq!(request.body, body);
    assert!(request.json_body.is_none());
}

#[test]
fn round_trip_with_empty_headers_and_body() {
    let headers = Headers::new();
    let msg = encode_request("u", "1", "/", &headers, b"");
    let request = parse(&msg).unwrap();
    assert_eq!(request.uuid, "u");
    assert_eq!(request.id, "1");
    assert_eq!(request.path, "/");
    assert_eq!(request.headers, headers);
    assert_eq!(request.body, Vec::<u8>::new());
}

#[test]
fn round_trip_keeps_characters_beyond_ascii() {
    let mut headers = Headers::new();
    headers.add(String::from("X-Grüße"), String::from("naïve ✓"));
    let msg = encode_request("üüid", "1", "/päth", &headers, b"k\xc3\xb6rper");
    let request = parse(&msg).unwrap();
    assert_eq!(request.uuid, "üüid");
    assert_eq!(request.path, "/päth");
    assert_eq!(request.headers.get("X-Grüße").unwrap()[0], "naïve ✓");
}

#[test]
fn encoded_form_is_the_documented_wire_shape() {
    let mut headers = Headers::new();
    headers.add(String::from("foo"), String::from("bar"));
    let msg = encode_request("abCD-123", "56", "/", &headers, b"hello world");
    assert_eq!(
        msg,
        b"abCD-123 56 / 15:3:foo,6:3:bar,]}11:hello world,".to_vec()
    );
}
