use mongrel2::json::JsonVal;
use mongrel2::parse;
use mongrel2::tnetstring::CodecErr;
use mongrel2::Error;

#[test]
fn test_request_parse() {
    let request = parse(b"abCD-123 56 / 13:{\"foo\":\"bar\"},11:hello world,").unwrap();

    assert_eq!(request.uuid, "abCD-123");
    assert_eq!(request.id, "56");
    assert_eq!(request.path, "/");
    assert_eq!(request.headers.len(), 1);
    let foo = request.headers.get("foo").unwrap();
    assert_eq!(foo.len(), 1);
    assert_eq!(foo[0], "bar");
    assert_eq!(request.body, b"hello world".to_vec());
    assert!(request.json_body.is_none());
}

#[test]
fn missing_first_delimiter_is_invalid_sender_uuid() {
    assert!(matches!(parse(b"abCD-123"), Err(Error::InvalidSenderUuid)));
    assert!(matches!(parse(b""), Err(Error::InvalidSenderUuid)));
}

#[test]
fn missing_second_delimiter_is_invalid_connection_id() {
    assert!(matches!(parse(b"abCD-123 56"), Err(Error::InvalidConnectionId)));
}

#[test]
fn missing_third_delimiter_is_invalid_path() {
    assert!(matches!(parse(b"abCD-123 56 /"), Err(Error::InvalidPath)));
}

#[test]
fn uuid_that_is_not_a_string_is_invalid_sender_uuid() {
    // 0xff can begin no character, even though a space follows
    assert!(matches!(parse(&[0xff, 32, 97, 32, 98, 32]), Err(Error::InvalidSenderUuid)));
}

#[test]
fn empty_tokens_are_accepted() {
    let request = parse(b"   13:{\"foo\":\"bar\"},2:hi,").unwrap();
    assert_eq!(request.uuid, "");
    assert_eq!(request.id, "");
    assert_eq!(request.path, "");
    assert_eq!(request.body, b"hi".to_vec());
}

#[test]
fn absent_headers_value_is_invalid_headers() {
    assert!(matches!(parse(b"a b c "), Err(Error::InvalidHeaders)));
}

#[test]
fn headers_of_the_wrong_shape_are_invalid_headers() {
    // a boolean where the headers belong
    assert!(matches!(parse(b"a b c 4:true!0:,"), Err(Error::InvalidHeaders)));
}

#[test]
fn malformed_headers_value_is_a_codec_error() {
    assert!(matches!(
        parse(b"a b c 5:xx"),
        Err(Error::CodecError(CodecErr::Truncated))
    ));
    assert!(matches!(
        parse(b"a b c zzz"),
        Err(Error::CodecError(CodecErr::BadLength))
    ));
}

#[test]
fn header_value_of_the_wrong_shape_is_refused() {
    // dictionary {"key": 42}
    assert!(matches!(
        parse(b"a b c 11:3:key,2:42#}0:,"),
        Err(Error::HeaderValueIsNotAString)
    ));
}

#[test]
fn header_list_values_are_collected() {
    // dictionary {"foo": ["bar", "baz"]}
    let request = parse(b"a b c 22:3:foo,12:3:bar,3:baz,]}2:hi,").unwrap();
    let foo = request.headers.get("foo").unwrap();
    assert_eq!(foo.len(), 2);
    assert_eq!(foo[0], "bar");
    assert_eq!(foo[1], "baz");
}

#[test]
fn duplicate_dictionary_keys_merge_their_values() {
    // dictionary {"k": "a", "k": "b"} — both values end up under "k"
    let request = parse(b"a b c 16:1:k,1:a,1:k,1:b,}2:hi,").unwrap();
    let k = request.headers.get("k").unwrap();
    assert_eq!(k.len(), 2);
    assert_eq!(k[0], "a");
    assert_eq!(k[1], "b");
}

#[test]
fn string_headers_fall_back_to_json() {
    let request = parse(b"a b c 27:{\"foo\":\"bar\",\"baz\":[\"qux\"]},2:hi,").unwrap();
    assert_eq!(request.headers.get("foo").unwrap()[0], "bar");
    assert_eq!(request.headers.get("baz").unwrap()[0], "qux");
}

#[test]
fn json_headers_equal_dictionary_headers() {
    // the same {"foo": ["bar"]} map, once as a wire dictionary and
    // once as JSON text in a wire string
    let as_dict = parse(b"a b c 15:3:foo,6:3:bar,]}2:hi,").unwrap();
    let as_json = parse(b"a b c 13:{\"foo\":\"bar\"},2:hi,").unwrap();
    assert_eq!(as_dict.headers, as_json.headers);
    assert_eq!(as_dict.body, as_json.body);
}

#[test]
fn json_headers_that_are_no_object_are_refused() {
    assert!(matches!(parse(b"a b c 5:[1,2],0:,"), Err(Error::HeaderIsNotADictionary)));
}

#[test]
fn unparsable_json_headers_are_a_json_error() {
    assert!(matches!(parse(b"a b c 3:zzz,0:,"), Err(Error::JsonError)));
}

#[test]
fn json_header_value_of_the_wrong_shape_is_refused() {
    assert!(matches!(parse(b"a b c 8:{\"k\":42},0:,"), Err(Error::HeaderValueIsNotAString)));
}

#[test]
fn absent_body_value_is_empty_body() {
    assert!(matches!(parse(b"a b c 0:}"), Err(Error::EmptyBody)));
}

#[test]
fn body_of_the_wrong_shape_is_invalid_body() {
    assert!(matches!(parse(b"a b c 0:}4:true!"), Err(Error::InvalidBody)));
}

#[test]
fn json_method_parses_the_body() {
    let request = parse(b"a b c 16:6:METHOD,4:JSON,}21:{\"type\":\"disconnect\"},").unwrap();
    let entries = request.json_body.as_ref().unwrap();
    assert_eq!(entries.len(), 1);
    assert_eq!(entries[0].0, "type");
    assert!(matches!(&entries[0].1, JsonVal::Str(s) if s == "disconnect"));
}

#[test]
fn json_method_with_unparsable_body_fails() {
    assert!(matches!(
        parse(b"a b c 16:6:METHOD,4:JSON,}5:hello,"),
        Err(Error::JsonError)
    ));
}

#[test]
fn json_method_with_non_object_body_fails() {
    assert!(matches!(
        parse(b"a b c 16:6:METHOD,4:JSON,}4:[42],"),
        Err(Error::JsonBodyIsNotADictionary)
    ));
}

#[test]
fn other_method_values_leave_the_body_alone() {
    let request = parse(b"a b c 15:6:METHOD,3:GET,}5:hello,").unwrap();
    assert!(request.json_body.is_none());
    assert_eq!(request.body, b"hello".to_vec());
}

#[test]
fn trailing_bytes_after_the_body_are_ignored() {
    let request = parse(b"a b c 0:}2:hi,garbage after the end").unwrap();
    assert_eq!(request.body, b"hi".to_vec());
}
