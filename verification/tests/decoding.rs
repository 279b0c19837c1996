use zdircomp::bencode::{parse, parse_prefix, BValue, DecodeFailure};

#[test]
fn test_parse_integer() {
    let (val, rest) = parse(b"i42e").unwrap();
    assert!(matches!(val, BValue::Integer(42)));
    assert!(rest.is_empty());
}

#[test]
fn test_parse_string() {
    let (val, rest) = parse(b"4:spam").unwrap();
    assert_eq!(val.as_bytes().unwrap(), b"spam");
    assert!(rest.is_empty());
}

#[test]
fn test_parse_list() {
    let (val, rest) = parse(b"l4:spam4:eggse").unwrap();
    let list = val.as_list().unwrap();
    assert_eq!(list.len(), 2);
    assert!(rest.is_empty());
}

#[test]
fn test_parse_dict() {
    let (val, rest) = parse(b"d3:cow3:moo4:spam4:eggse").unwrap();
    assert!(matches!(val, BValue::Dict(_)));
    assert_eq!(val.field(b"cow").unwrap().as_bytes().unwrap(), b"moo");
    assert!(rest.is_empty());
}

fn message_of(data: &[u8]) -> String {
    match parse(data) {
        Ok(_) => panic!("decoded"),
        Err(error) => error.0,
    }
}

#[test]
fn integers_at_the_edges_of_the_range() {
    let (val, _) = parse(b"i9223372036854775807e").unwrap();
    assert!(matches!(val, BValue::Integer(i64::MAX)));
    let (val, _) = parse(b"i-9223372036854775808e").unwrap();
    assert!(matches!(val, BValue::Integer(i64::MIN)));
    assert_eq!(message_of(b"i9223372036854775808e"), "Integer: bad format");
    assert_eq!(message_of(b"i-9223372036854775809e"), "Integer: bad format");
    assert_eq!(
        message_of(b"i99999999999999999999999999999999999999e"),
        "Integer: bad format"
    );
}

#[test]
fn integers_with_leading_zeros_and_minus_zero() {
    let (val, _) = parse(b"i007e").unwrap();
    assert!(matches!(val, BValue::Integer(7)));
    let (val, _) = parse(b"i-0e").unwrap();
    assert!(matches!(val, BValue::Integer(0)));
    let (val, _) = parse(b"i-12e").unwrap();
    assert!(matches!(val, BValue::Integer(-12)));
    let (val, _) = parse(b"i0000000000000000000000000000000000000005e").unwrap();
    assert!(matches!(val, BValue::Integer(5)));
}

#[test]
fn malformed_integers_are_refused() {
    assert_eq!(message_of(b"ie"), "Integer: bad format");
    assert_eq!(message_of(b"i-e"), "Integer: bad format");
    assert_eq!(message_of(b"i+5e"), "Integer: bad format");
    assert_eq!(message_of(b"i--5e"), "Integer: bad format");
    assert_eq!(message_of(b"i12x3e"), "Integer: bad format");
    assert_eq!(message_of(b"i 5e"), "Integer: bad format");
    assert_eq!(message_of(b"i42"), "Integer: missing 'e'");
    assert_eq!(message_of(b"i"), "Integer: missing 'e'");
}

#[test]
fn byte_strings_are_raw_bytes() {
    let (val, rest) = parse(b"3:\xff\x00e").unwrap();
    assert_eq!(val.as_bytes().unwrap(), b"\xff\x00e");
    assert!(rest.is_empty());
    let (val, rest) = parse(b"0:").unwrap();
    assert_eq!(val.as_bytes().unwrap(), b"");
    assert!(rest.is_empty());
    let (val, rest) = parse(b"003:abcd").unwrap();
    assert_eq!(val.as_bytes().unwrap(), b"abc");
    assert_eq!(rest, b"d");
}

#[test]
fn truncated_byte_string_names_the_shortfall() {
    assert_eq!(
        message_of(b"5:ab"),
        "String: expected 5 bytes but only 2 available"
    );
    assert_eq!(
        message_of(b"10:"),
        "String: expected 10 bytes but only 0 available"
    );
    assert_eq!(
        message_of(b"l4:spam120:eggse"),
        "String: expected 120 bytes but only 5 available"
    );
}

#[test]
fn malformed_lengths_are_refused() {
    assert_eq!(message_of(b"4spam"), "String: missing ':'");
    assert_eq!(message_of(b"4x:spam"), "String: bad length");
    assert_eq!(message_of(b"1+2:abc"), "String: bad length");
    assert_eq!(
        message_of(b"99999999999999999999999999999999:abc"),
        "String: bad length"
    );
}

#[test]
fn unexpected_bytes_are_named() {
    assert_eq!(message_of(b""), "Unexpected end of data");
    assert_eq!(message_of(b"x"), "Unexpected byte 'x' (0x78)");
    assert_eq!(message_of(b"e"), "Unexpected byte 'e' (0x65)");
    assert_eq!(message_of(b"\n"), "Unexpected byte '\n' (0x0a)");
    assert_eq!(message_of(b"\xff"), "Unexpected byte '\u{ff}' (0xff)");
    assert_eq!(message_of(b"li1e-e"), "Unexpected byte '-' (0x2d)");
}

#[test]
fn unterminated_containers_are_refused() {
    assert_eq!(message_of(b"l"), "List: missing 'e'");
    assert_eq!(message_of(b"li1ei2e"), "List: missing 'e'");
    assert_eq!(message_of(b"d"), "Dictionary: missing 'e'");
    assert_eq!(message_of(b"d1:ai1e"), "Dictionary: missing 'e'");
    assert_eq!(message_of(b"d1:a"), "Dictionary: missing value");
    assert_eq!(message_of(b"d1:ae"), "Unexpected byte 'e' (0x65)");
}

#[test]
fn dictionary_keys_must_be_byte_strings() {
    assert_eq!(
        message_of(b"di1e1:ae"),
        "Dictionary: key must be byte string"
    );
    assert_eq!(
        message_of(b"dl1:ae1:be"),
        "Dictionary: key must be byte string"
    );
    assert_eq!(
        message_of(b"dd1:a1:be1:ce"),
        "Dictionary: key must be byte string"
    );
    assert_eq!(
        message_of(b"d1:a1:bli1ee1:ce"),
        "Dictionary: key must be byte string"
    );
}

#[test]
fn later_duplicate_key_overwrites() {
    let (val, rest) = parse(b"d1:ai1e1:bi2e1:ai3ee").unwrap();
    assert!(rest.is_empty());
    assert!(matches!(val.field(b"a"), Some(BValue::Integer(3))));
    assert!(matches!(val.field(b"b"), Some(BValue::Integer(2))));
    assert!(val.field(b"c").is_none());
    match val {
        BValue::Dict(entries) => {
            assert_eq!(entries.len(), 2);
            assert_eq!(entries[0].0, b"a");
            assert_eq!(entries[1].0, b"b");
        }
        _ => panic!("not a dictionary"),
    }
}

#[test]
fn trailing_bytes_are_handed_back() {
    let (val, rest) = parse(b"i42e4:spam").unwrap();
    assert!(matches!(val, BValue::Integer(42)));
    assert_eq!(rest, b"4:spam");
    let (val, rest) = parse(rest).unwrap();
    assert_eq!(val.as_bytes().unwrap(), b"spam");
    assert!(rest.is_empty());
    let (val, rest) = parse(b"li1eei2e").unwrap();
    assert_eq!(val.as_list().unwrap().len(), 1);
    assert_eq!(rest, b"i2e");
}

#[test]
fn nested_values_decode() {
    let (val, rest) = parse(b"d4:listli1el2:abee3:numi-7ee").unwrap();
    assert!(rest.is_empty());
    let list = val.field(b"list").unwrap().as_list().unwrap();
    assert_eq!(list.len(), 2);
    assert!(matches!(list[0], BValue::Integer(1)));
    let inner = list[1].as_list().unwrap();
    assert_eq!(inner.len(), 1);
    assert_eq!(inner[0].as_bytes().unwrap(), b"ab");
    assert!(matches!(val.field(b"num"), Some(BValue::Integer(-7))));
}

#[test]
fn nesting_is_bounded() {
    let mut deep = Vec::new();
    for _ in 0..256 {
        deep.push(b'l');
    }
    for _ in 0..256 {
        deep.push(b'e');
    }
    let (mut val, rest) = parse(&deep).unwrap();
    assert!(rest.is_empty());
    let mut levels = 0;
    loop {
        let inner = match val {
            BValue::List(mut items) => {
                levels += 1;
                items.pop()
            }
            _ => panic!("not a list"),
        };
        match inner {
            Some(next) => val = next,
            None => break,
        }
    }
    assert_eq!(levels, 256);

    let mut deeper = Vec::new();
    for _ in 0..257 {
        deeper.push(b'l');
    }
    for _ in 0..257 {
        deeper.push(b'e');
    }
    assert_eq!(message_of(&deeper), "Nesting too deep");

    let mut huge = Vec::new();
    for _ in 0..200_000 {
        huge.push(b'd');
    }
    assert_eq!(message_of(&huge), "Nesting too deep");
}

#[test]
fn accessors_tell_the_kinds_apart() {
    let (int, _) = parse(b"i1e").unwrap();
    assert!(int.as_bytes().is_none());
    assert!(int.as_list().is_none());
    assert!(int.as_str_lossy().is_none());
    assert!(int.field(b"a").is_none());
    let (list, _) = parse(b"le").unwrap();
    assert!(list.as_bytes().is_none());
    assert_eq!(list.as_list().unwrap().len(), 0);
    assert!(list.field(b"").is_none());
    let (dict, _) = parse(b"de").unwrap();
    assert!(dict.as_list().is_none());
    assert!(dict.field(b"").is_none());
    let (dict, _) = parse(b"d0:i5ee").unwrap();
    assert!(matches!(dict.field(b""), Some(BValue::Integer(5))));
}

#[test]
fn lossy_text_replaces_ill_formed_bytes() {
    let (val, _) = parse(b"4:spam").unwrap();
    assert_eq!(val.as_str_lossy().unwrap(), "spam");
    let (val, _) = parse(b"5:a\xffb\xc3\xa9").unwrap();
    assert_eq!(val.as_str_lossy().unwrap(), "a\u{fffd}b\u{e9}");
    let (val, _) = parse(b"0:").unwrap();
    assert_eq!(val.as_str_lossy().unwrap(), "");
}

#[test]
fn error_is_described_with_its_heading() {
    let error = parse(b"x").unwrap_err();
    assert_eq!(
        error.describe(),
        "Bencode parse error: Unexpected byte 'x' (0x78)"
    );
}

#[test]
fn failures_are_told_apart() {
    let failure = |data: &[u8]| parse_prefix(data).unwrap_err();
    assert_eq!(failure(b""), DecodeFailure::UnexpectedEnd);
    assert_eq!(failure(b"?"), DecodeFailure::UnexpectedByte(b'?'));
    assert_eq!(failure(b"i1"), DecodeFailure::IntegerUnterminated);
    assert_eq!(failure(b"i1.5e"), DecodeFailure::IntegerMalformed);
    assert_eq!(failure(b"12"), DecodeFailure::LengthUnterminated);
    assert_eq!(failure(b"1a:x"), DecodeFailure::LengthMalformed);
    assert_eq!(
        failure(b"5:ab"),
        DecodeFailure::Truncated { needed: 5, available: 2 }
    );
    assert_eq!(failure(b"l1:a"), DecodeFailure::ListUnterminated);
    assert_eq!(failure(b"d1:a1:b"), DecodeFailure::DictUnterminated);
    assert_eq!(failure(b"dlee"), DecodeFailure::KeyNotBytes);
    assert_eq!(failure(b"d1:a"), DecodeFailure::MissingValue);
    assert_eq!(failure(&[b'l'; 300]), DecodeFailure::TooDeep);
}

#[test]
fn prefix_tells_where_the_value_ends() {
    let (val, end) = parse_prefix(b"4:spami1e").unwrap();
    assert_eq!(val.as_bytes().unwrap(), b"spam");
    assert_eq!(end, 6);
    let (_, end) = parse_prefix(b"d1:ali1ei2eee").unwrap();
    assert_eq!(end, 13);
}

#[test]
fn copies_are_equal_in_content() {
    let (val, _) = parse(b"d1:ali1e2:xyd1:bi-3eee1:c0:e").unwrap();
    let copy = val.clone();
    assert_eq!(format!("{:?}", copy), format!("{:?}", val));
    assert!(matches!(copy.field(b"c"), Some(BValue::Bytes(_))));
    let list = copy.field(b"a").unwrap().as_list().unwrap();
    assert_eq!(list.len(), 3);
    assert!(matches!(list[2].field(b"b"), Some(BValue::Integer(-3))));
}

#[test]
fn written_values_decode_to_themselves() {
    let constructed = BValue::Dict(vec![
        (b"int".to_vec(), BValue::Integer(-42)),
        (
            b"list".to_vec(),
            BValue::List(vec![
                BValue::Bytes(b"spam".to_vec()),
                BValue::Integer(0),
                BValue::List(vec![]),
                BValue::Dict(vec![]),
            ]),
        ),
        (b"raw".to_vec(), BValue::Bytes(vec![0, 255, b'e', b':'])),
    ]);
    let mut written = b"d3:inti-42e4:listl4:spami0eledee3:raw4:".to_vec();
    written.extend_from_slice(&[0, 255, b'e', b':']);
    written.extend_from_slice(b"e");
    let sibling = b"i7e";
    written.extend_from_slice(sibling);
    let (decoded, rest) = parse(&written).unwrap();
    assert_eq!(format!("{:?}", decoded), format!("{:?}", constructed));
    assert_eq!(rest, sibling);
}

#[test]
fn large_dictionary_with_repeated_keys() {
    let mut data = vec![b'd'];
    for round in 0..3 {
        for i in 0..20_000 {
            let key = format!("key{}", i);
            data.extend_from_slice(format!("{}:{}i{}e", key.len(), key, i + round).as_bytes());
        }
    }
    data.push(b'e');
    let (val, rest) = parse(&data).unwrap();
    assert!(rest.is_empty());
    match &val {
        BValue::Dict(entries) => {
            assert_eq!(entries.len(), 20_000);
            assert_eq!(entries[0].0, b"key0");
            assert_eq!(entries[19_999].0, b"key19999");
        }
        _ => panic!("not a dictionary"),
    }
    assert!(matches!(val.field(b"key0"), Some(BValue::Integer(2))));
    assert!(matches!(val.field(b"key19999"), Some(BValue::Integer(20001))));
    assert!(val.field(b"key20000").is_none());
}
