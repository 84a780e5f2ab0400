use mongrel2::http_payload;
use mongrel2::parse;
use mongrel2::reply_frame;
use mongrel2::send_frame;
use mongrel2::Headers;

#[test]
fn http_reply_bytes_are_exact() {
    let payload = http_payload(200, "OK", &Headers::new(), b"hello world!");
    assert_eq!(
        payload,
        b"HTTP/1.1 200 OK\r\nContent-Length: 12\r\n\r\nhello world!".to_vec()
    );
}

#[test]
fn http_reply_renders_headers_in_order() {
    let mut headers = Headers::new();
    headers.add(String::from("Server"), String::from("m2"));
    headers.add(String::from("Set-Cookie"), String::from("a=1"));
    headers.add(String::from("Set-Cookie"), String::from("b=2"));
    let payload = http_payload(404, "Not Found", &headers, b"gone");
    assert_eq!(
        payload,
        b"HTTP/1.1 404 Not Found\r\nServer: m2\r\nSet-Cookie: a=1\r\nSet-Cookie: b=2\r\nContent-Length: 4\r\n\r\ngone"
            .to_vec()
    );
}

#[test]
fn send_frame_wraps_the_joined_ids_as_one_string() {
    let ids = vec![String::from("56"), String::from("57"), String::from("58")];
    let frame = send_frame("abCD-123", &ids, b"hi");
    assert_eq!(frame, b"abCD-123 8:56 57 58, hi".to_vec());
}

#[test]
fn send_frame_with_one_id() {
    let ids = vec![String::from("56")];
    assert_eq!(send_frame("abCD-123", &ids, b"hi"), b"abCD-123 2:56, hi".to_vec());
}

#[test]
fn send_frame_with_no_ids() {
    let ids: Vec<String> = Vec::new();
    assert_eq!(send_frame("u", &ids, b""), b"u 0:, ".to_vec());
}

#[test]
fn reply_frame_addresses_the_request() {
    let request = parse(b"abCD-123 56 / 13:{\"foo\":\"bar\"},11:hello world,").unwrap();
    let frame = reply_frame(&request, b"done");
    assert_eq!(frame, b"abCD-123 2:56, done".to_vec());
}

#[test]
fn reply_http_composes_the_two_layers() {
    let request = parse(b"abCD-123 56 / 13:{\"foo\":\"bar\"},11:hello world,").unwrap();
    let frame = mongrel2::reply_http_frame(&request, 200, "OK", &Headers::new(), b"hello world!");
    assert_eq!(
        frame,
        b"abCD-123 2:56, HTTP/1.1 200 OK\r\nContent-Length: 12\r\n\r\nhello world!".to_vec()
    );
}
