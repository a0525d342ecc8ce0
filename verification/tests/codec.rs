use respcodec::model::equiv;
use respcodec::model::Value;
use respcodec::resp;
use respcodec::resp::unpack;
use respcodec::resp::ParseError;

#[test]
fn parse_resp() {
    let bulk_str = b"$5\r\nHello\r\n";

    assert_eq!(
        unpack(bulk_str.to_vec()),
        Ok(Value::BinaryString(b"Hello".to_vec()))
    );

    let utf8_str = String::from("ä¸€æ¯ðŸ§Š\r\nç¾Žå¼");
    let bulk_str_utf8 = format!("${}\r\n{}\r\n", utf8_str.len(), utf8_str);
    assert_eq!(
        unpack(bulk_str_utf8.into_bytes()),
        Ok(Value::BinaryString(String::from("ä¸€æ¯ðŸ§Š\r\nç¾Žå¼").into_bytes()))
    );

    let arr_str = b"*2\r\n$5\r\nHello\r\n$5\r\nWorld\r\n";
    assert_eq!(
        unpack(arr_str.to_vec()),
        Ok(Value::List(vec![
            Value::BinaryString(b"Hello".to_vec()),
            Value::BinaryString(b"World".to_vec())
        ]))
    );

    let array_str2 = b"*2\r\n*2\r\n$5\r\nHello\r\n$5\r\nWorld\r\n$5\r\nRust!\r\n";
    assert_eq!(
        unpack(array_str2.to_vec()),
        Ok(Value::List(vec![
            Value::List(vec![
                Value::BinaryString(b"Hello".to_vec()),
                Value::BinaryString(b"World".to_vec())
            ]),
            Value::BinaryString(b"Rust!".to_vec())
        ]))
    );

    let number_str = b":100\r\n";
    assert_eq!(unpack(number_str.to_vec()), Ok(Value::Integer(100)));

    let number_str = b":-99\r\n";
    assert_eq!(unpack(number_str.to_vec()), Ok(Value::Integer(-99)));

    let number_str = b":+98\r\n";
    assert_eq!(unpack(number_str.to_vec()), Ok(Value::Integer(98)));

    let map_str = b"%5\r\n+name\r\n+xiamingjie\r\n$5\r\nhello\r\n$5\r\nworld\r\n:1\r\n+1\r\n+array\r\n*1\r\n+item1\r\n+map\r\n%1\r\n+map_k\r\n+map_v\r\n";
    let expected = Value::Mapping(vec![
        (
            Value::SimpleText(b"name".to_vec()),
            Value::SimpleText(b"xiamingjie".to_vec()),
        ),
        (
            Value::BinaryString(b"hello".to_vec()),
            Value::BinaryString(b"world".to_vec()),
        ),
        (Value::Integer(1), Value::SimpleText(b"1".to_vec())),
        (
            Value::SimpleText(b"array".to_vec()),
            Value::List(vec![Value::SimpleText(b"item1".to_vec())]),
        ),
        (
            Value::SimpleText(b"map".to_vec()),
            Value::Mapping(vec![(
                Value::SimpleText(b"map_k".to_vec()),
                Value::SimpleText(b"map_v".to_vec()),
            )]),
        ),
    ]);
    assert_eq!(unpack(map_str.to_vec()), Ok(expected));

    // the same mapping given in another order is structurally equal
    let permuted = Value::Mapping(vec![
        (
            Value::BinaryString(b"hello".to_vec()),
            Value::BinaryString(b"world".to_vec()),
        ),
        (
            Value::SimpleText(b"map".to_vec()),
            Value::Mapping(vec![(
                Value::SimpleText(b"map_k".to_vec()),
                Value::SimpleText(b"map_v".to_vec()),
            )]),
        ),
        (Value::Integer(1), Value::SimpleText(b"1".to_vec())),
        (
            Value::SimpleText(b"array".to_vec()),
            Value::List(vec![Value::SimpleText(b"item1".to_vec())]),
        ),
        (
            Value::SimpleText(b"name".to_vec()),
            Value::SimpleText(b"xiamingjie".to_vec()),
        ),
    ]);
    let decoded = unpack(map_str.to_vec()).unwrap();
    assert!(equiv(&decoded, &permuted));

    let bool_str = b"#t\r\n";
    assert_eq!(unpack(bool_str.to_vec()), Ok(Value::Boolean(true)));
    let bool_str = b"#f\r\n";
    assert_eq!(unpack(bool_str.to_vec()), Ok(Value::Boolean(false)));

    assert_eq!(
        unpack(b"~2\r\n:1\r\n+xiamingjie\r\n".to_vec()),
        Ok(Value::UniqueSet(vec![
            Value::Integer(1),
            Value::SimpleText(b"xiamingjie".to_vec())
        ]))
    );
    let decoded = unpack(b"~2\r\n:1\r\n+xiamingjie\r\n".to_vec()).unwrap();
    let permuted_set = Value::UniqueSet(vec![
        Value::SimpleText(b"xiamingjie".to_vec()),
        Value::Integer(1),
    ]);
    assert!(equiv(&decoded, &permuted_set));
}

#[test]
fn pack() {
    assert_eq!(
        resp::pack(Value::SimpleText(b"hello".to_vec())),
        b"+hello\r\n".to_vec()
    );
    assert_eq!(
        resp::pack(Value::ErrorText(b"Error: redis nil".to_vec())),
        b"-Error: redis nil\r\n".to_vec()
    );
    assert_eq!(
        resp::pack(Value::BinaryString(b"hello".to_vec())),
        b"$5\r\nhello\r\n".to_vec()
    );
    assert_eq!(resp::pack(Value::Integer(99999)), b":99999\r\n".to_vec());
    assert_eq!(resp::pack(Value::Boolean(true)), b"#t\r\n".to_vec());
    assert_eq!(
        resp::pack(Value::List(vec![
            Value::BinaryString(b"hello".to_vec()),
            Value::Integer(123456)
        ])),
        b"*2\r\n$5\r\nhello\r\n:123456\r\n".to_vec()
    );
    assert_eq!(
        resp::pack(Value::Mapping(vec![(
            Value::SimpleText(b"abc".to_vec()),
            Value::List(vec![
                Value::BinaryString(b"hello".to_vec()),
                Value::Integer(123456)
            ])
        )])),
        b"%1\r\n+abc\r\n*2\r\n$5\r\nhello\r\n:123456\r\n".to_vec()
    );
    assert_eq!(
        resp::pack(Value::UniqueSet(vec![
            Value::Integer(1),
            Value::SimpleText(b"xiamingjie".to_vec())
        ])),
        b"~2\r\n:1\r\n+xiamingjie\r\n".to_vec()
    );
    assert_eq!(resp::pack(Value::Integer(-99)), b":-99\r\n".to_vec());
    assert_eq!(resp::pack(Value::Integer(0)), b":0\r\n".to_vec());
    assert_eq!(resp::pack(Value::Boolean(false)), b"#f\r\n".to_vec());
    assert_eq!(resp::pack(Value::List(vec![])), b"*0\r\n".to_vec());
}

fn nested_sample() -> Value {
    Value::List(vec![
        Value::SimpleText(b"status".to_vec()),
        Value::Integer(-42),
        Value::Boolean(false),
        Value::Mapping(vec![
            (Value::Integer(1), Value::BinaryString(b"one".to_vec())),
            (
                Value::Integer(2),
                Value::UniqueSet(vec![Value::Integer(7), Value::Integer(9)]),
            ),
        ]),
        Value::BinaryString(b"\r\nraw\x00bytes\r\n".to_vec()),
    ])
}

#[test]
fn round_trip_nested() {
    let encoded = resp::pack(nested_sample());
    assert_eq!(unpack(encoded), Ok(nested_sample()));
}

#[test]
fn round_trip_integer_bounds() {
    assert_eq!(
        unpack(resp::pack(Value::Integer(i64::MAX))),
        Ok(Value::Integer(i64::MAX))
    );
    assert_eq!(
        unpack(resp::pack(Value::Integer(i64::MIN))),
        Ok(Value::Integer(i64::MIN))
    );
    assert_eq!(resp::pack(Value::Integer(i64::MIN)), b":-9223372036854775808\r\n".to_vec());
    assert_eq!(
        unpack(b":9223372036854775807\r\n".to_vec()),
        Ok(Value::Integer(i64::MAX))
    );
    assert_eq!(
        unpack(b":-9223372036854775808\r\n".to_vec()),
        Ok(Value::Integer(i64::MIN))
    );
    assert_eq!(
        unpack(b":9223372036854775808\r\n".to_vec()),
        Err(ParseError::InvalidInteger)
    );
    assert_eq!(
        unpack(b":-9223372036854775809\r\n".to_vec()),
        Err(ParseError::InvalidInteger)
    );
    assert_eq!(unpack(b":007\r\n".to_vec()), Ok(Value::Integer(7)));
}

#[test]
fn binary_exactness() {
    // a payload carrying the delimiter sequence and multi-byte text
    let payload = b"one\r\ntwo\r\n\xe4\xb8\x80\xe6\x9d\xaf\x00\xff".to_vec();
    let encoded = resp::pack(Value::BinaryString(payload.clone()));
    assert_eq!(unpack(encoded), Ok(Value::BinaryString(payload)));
}

#[test]
fn malformed_cases() {
    assert_eq!(
        unpack(b"$abc\r\n".to_vec()),
        Err(ParseError::InvalidInteger)
    );
    assert_eq!(unpack(b"*2\r\n+a\r\n".to_vec()), Err(ParseError::Incomplete));
    assert_eq!(
        unpack(b"@foo\r\n".to_vec()),
        Err(ParseError::UnknownType(b'@'))
    );
    assert_eq!(unpack(b"#x\r\n".to_vec()), Err(ParseError::InvalidBoolean));
    assert_eq!(unpack(b"#tt\r\n".to_vec()), Err(ParseError::InvalidBoolean));
    assert_eq!(
        unpack(b"$5\r\nHelloXY".to_vec()),
        Err(ParseError::MissingTerminator)
    );
    assert_eq!(unpack(b"".to_vec()), Err(ParseError::Incomplete));
    assert_eq!(unpack(b"+abc".to_vec()), Err(ParseError::Incomplete));
    assert_eq!(unpack(b"$5\r\nHel".to_vec()), Err(ParseError::Incomplete));
    assert_eq!(unpack(b":\r\n".to_vec()), Err(ParseError::InvalidInteger));
    assert_eq!(unpack(b":+-3\r\n".to_vec()), Err(ParseError::InvalidInteger));
    assert_eq!(unpack(b":12a\r\n".to_vec()), Err(ParseError::InvalidInteger));
    assert_eq!(
        unpack(b"$-1\r\n\r\n".to_vec()),
        Err(ParseError::InvalidInteger)
    );
}

#[test]
fn length_with_plus_sign() {
    assert_eq!(
        unpack(b"$+5\r\nHello\r\n".to_vec()),
        Ok(Value::BinaryString(b"Hello".to_vec()))
    );
}

#[test]
fn duplicate_key_last_wins() {
    let decoded = unpack(b"%2\r\n+k\r\n+v1\r\n+k\r\n+v2\r\n".to_vec()).unwrap();
    assert_eq!(
        decoded,
        Value::Mapping(vec![(
            Value::SimpleText(b"k".to_vec()),
            Value::SimpleText(b"v2".to_vec())
        )])
    );
}

#[test]
fn nesting_single_element() {
    assert_eq!(
        unpack(b"*1\r\n*1\r\n+ok\r\n".to_vec()),
        Ok(Value::List(vec![Value::List(vec![Value::SimpleText(
            b"ok".to_vec()
        )])]))
    );
}

#[test]
fn set_dedup() {
    let decoded = unpack(b"~2\r\n:1\r\n:1\r\n".to_vec()).unwrap();
    assert_eq!(decoded, Value::UniqueSet(vec![Value::Integer(1)]));
}

#[test]
fn partial_reads_converge() {
    let msg = b"*2\r\n$5\r\nHello\r\n$5\r\nWorld\r\n";
    for cut in 0..msg.len() {
        assert_eq!(
            unpack(msg[..cut].to_vec()),
            Err(ParseError::Incomplete),
            "cut at {}",
            cut
        );
    }
    assert_eq!(
        unpack(msg.to_vec()),
        Ok(Value::List(vec![
            Value::BinaryString(b"Hello".to_vec()),
            Value::BinaryString(b"World".to_vec())
        ]))
    );
}

#[test]
fn equivalence_rules() {
    // lists are order-sensitive
    let a = Value::List(vec![Value::Integer(1), Value::Integer(2)]);
    let b = Value::List(vec![Value::Integer(2), Value::Integer(1)]);
    assert!(!equiv(&a, &b));
    // sets are order-insensitive
    let c = Value::UniqueSet(vec![Value::Integer(1), Value::Integer(2)]);
    let d = Value::UniqueSet(vec![Value::Integer(2), Value::Integer(1)]);
    assert!(equiv(&c, &d));
    // mappings compare key/value pairs, not positions
    let e = Value::Mapping(vec![
        (Value::Integer(1), Value::Boolean(true)),
        (Value::Integer(2), Value::Boolean(false)),
    ]);
    let f = Value::Mapping(vec![
        (Value::Integer(2), Value::Boolean(false)),
        (Value::Integer(1), Value::Boolean(true)),
    ]);
    assert!(equiv(&e, &f));
    // a different value under the same key breaks equivalence
    let g = Value::Mapping(vec![
        (Value::Integer(2), Value::Boolean(true)),
        (Value::Integer(1), Value::Boolean(true)),
    ]);
    assert!(!equiv(&e, &g));
    // kinds never mix
    assert!(!equiv(
        &Value::SimpleText(b"1".to_vec()),
        &Value::BinaryString(b"1".to_vec())
    ));
}
