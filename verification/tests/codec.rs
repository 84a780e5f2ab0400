use mongrel2::tnetstring::decode;
use mongrel2::tnetstring::encode;
use mongrel2::tnetstring::CodecErr;
use mongrel2::tnetstring::WireEntry;
use mongrel2::tnetstring::WireItem;
use mongrel2::tnetstring::WireVal;
use mongrel2::u64_dec_digits;

#[test]
fn decodes_a_string() {
    let (v, end) = decode(b"5:hello,", 0).unwrap();
    assert_eq!(v, WireVal::Str(b"hello".to_vec()));
    assert_eq!(end, 8);
}

#[test]
fn decodes_an_empty_string() {
    let (v, end) = decode(b"0:,", 0).unwrap();
    assert_eq!(v, WireVal::Str(Vec::new()));
    assert_eq!(end, 3);
}

#[test]
fn decodes_scalars() {
    assert_eq!(decode(b"2:42#", 0).unwrap().0, WireVal::Int(b"42".to_vec()));
    assert_eq!(decode(b"4:3.14^", 0).unwrap().0, WireVal::Flt(b"3.14".to_vec()));
    assert_eq!(decode(b"4:true!", 0).unwrap().0, WireVal::Boolean(true));
    assert_eq!(decode(b"5:false!", 0).unwrap().0, WireVal::Boolean(false));
    assert_eq!(decode(b"0:~", 0).unwrap().0, WireVal::Null);
}

#[test]
fn decodes_a_list_of_strings() {
    let (v, _) = decode(b"13:1:a,1:b,2:cc,]", 0).unwrap();
    assert_eq!(
        v,
        WireVal::List(vec![
            WireItem::Str(b"a".to_vec()),
            WireItem::Str(b"b".to_vec()),
            WireItem::Str(b"cc".to_vec()),
        ])
    );
}

#[test]
fn decodes_a_dictionary() {
    let (v, _) = decode(b"15:3:foo,6:3:bar,]}", 0).unwrap();
    assert_eq!(
        v,
        WireVal::Dict(vec![(
            b"foo".to_vec(),
            WireEntry::List(vec![WireItem::Str(b"bar".to_vec())])
        )])
    );
}

#[test]
fn nested_values_are_carried_shape_only() {
    // a dictionary whose value is itself a dictionary
    let (v, _) = decode(b"14:1:k,7:1:a,0:,}}", 0).unwrap();
    assert_eq!(v, WireVal::Dict(vec![(b"k".to_vec(), WireEntry::Other(b'}'))]));
}

#[test]
fn decodes_at_an_offset_and_reports_the_end() {
    let msg = b"xx1:a,3:bcd,";
    let (v, end) = decode(msg, 2).unwrap();
    assert_eq!(v, WireVal::Str(b"a".to_vec()));
    assert_eq!(end, 6);
    let (w, end2) = decode(msg, end).unwrap();
    assert_eq!(w, WireVal::Str(b"bcd".to_vec()));
    assert_eq!(end2, msg.len());
}

#[test]
fn rejects_malformed_frames() {
    assert!(matches!(decode(b"abc", 0), Err(CodecErr::BadLength)));
    assert!(matches!(decode(b"12", 0), Err(CodecErr::BadLength)));
    assert!(matches!(decode(b"", 0), Err(CodecErr::BadLength)));
    assert!(matches!(decode(b"9:ab,", 0), Err(CodecErr::Truncated)));
    assert!(matches!(decode(b"3:abcx", 0), Err(CodecErr::BadTag)));
    assert!(matches!(decode(b"3:yes!", 0), Err(CodecErr::BadPayload)));
    assert!(matches!(decode(b"1:x~", 0), Err(CodecErr::BadPayload)));
    assert!(matches!(decode(b"8:2:42#0:,}", 0), Err(CodecErr::KeyNotString)));
}

#[test]
fn huge_length_prefixes_are_truncated_not_overflowed() {
    assert!(matches!(
        decode(b"99999999999999999999999999:a,", 0),
        Err(CodecErr::Truncated)
    ));
}

#[test]
fn encode_then_decode_gives_the_value_back() {
    let vals = vec![
        WireVal::Str(b"hello world".to_vec()),
        WireVal::Int(b"-7".to_vec()),
        WireVal::Boolean(false),
        WireVal::Null,
        WireVal::List(vec![WireItem::Str(Vec::new()), WireItem::Str(b"x".to_vec())]),
        WireVal::Dict(vec![
            (b"a".to_vec(), WireEntry::Str(b"1".to_vec())),
            (
                b"b".to_vec(),
                WireEntry::List(vec![WireItem::Str(b"2".to_vec()), WireItem::Str(b"3".to_vec())]),
            ),
        ]),
    ];
    for v in vals {
        let bytes = encode(&v).unwrap();
        let (back, end) = decode(&bytes, 0).unwrap();
        assert_eq!(back, v);
        assert_eq!(end, bytes.len());
    }
}

#[test]
fn encodes_the_exact_frame() {
    assert_eq!(encode(&WireVal::Str(b"hello".to_vec())).unwrap(), b"5:hello,".to_vec());
    assert_eq!(encode(&WireVal::Boolean(true)).unwrap(), b"4:true!".to_vec());
    assert_eq!(encode(&WireVal::Null).unwrap(), b"0:~".to_vec());
}

#[test]
fn shape_only_values_cannot_be_re_encoded() {
    assert!(encode(&WireVal::List(vec![WireItem::Other(b'#')])).is_none());
    assert!(encode(&WireVal::Dict(vec![(b"k".to_vec(), WireEntry::Other(b'}'))])).is_none());
}

#[test]
fn renders_decimal_digits() {
    assert_eq!(u64_dec_digits(0), b"0".to_vec());
    assert_eq!(u64_dec_digits(7), b"7".to_vec());
    assert_eq!(u64_dec_digits(1234567890), b"1234567890".to_vec());
}
