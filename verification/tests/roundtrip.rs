use bencode::decode::{decode_value, Deserializer};
use bencode::encode::encode_value;
use bencode::value::Value;
use bencode::Error;

fn sample<'a>() -> Value<'a> {
    Value::Dict(vec![
        (&b"id"[..], Value::Bytes(b"abcdefghij0123456789")),
        (&b"n"[..], Value::Int(0)),
        (
            &b"deep"[..],
            Value::List(vec![
                Value::List(vec![]),
                Value::Dict(vec![(&b""[..], Value::Bytes(b""))]),
                Value::Int(u64::MAX),
            ]),
        ),
    ])
}

#[test]
fn round_trip_reproduces_value() {
    // decode(encode(v)) == v for values the format can express
    let v = sample();
    let bytes = encode_value(&v);
    let back = decode_value(&bytes).unwrap();
    assert_eq!(back, v);
}

#[test]
fn reencode_is_byte_identical() {
    // encode(decode(bytes)) reproduces the input byte for byte
    let inputs: Vec<&[u8]> = vec![
        b"d3:numi1e1:bd1:ii32e1:j4:weeeee",
        b"d1:ad2:id20:abcdefghij0123456789e1:q4:ping1:t2:aa1:y1:qe",
        b"le",
        b"d1:ai1e1:ai2ee",
        b"i18446744073709551615e",
        b"0:",
    ];
    for data in inputs {
        let v = decode_value(data).unwrap();
        assert_eq!(encode_value(&v), data);
    }
}

#[test]
fn zero_copy_borrows_from_input() {
    // the byte-string field is a view into the input buffer: its
    // content matches without the decoder having copied string data
    let data = b"d3:numi1e1:bd1:ii32e1:j4:weeeee".to_vec();
    let x = decode_value(&data).unwrap();
    match x {
        Value::Dict(top) => match &top[1].1 {
            Value::Dict(inner) => {
                assert_eq!(inner[1].0, b"j");
                assert_eq!(inner[1].1, Value::Bytes(&data[25..29]));
            }
            _ => panic!("inner dict expected"),
        },
        _ => panic!("dict expected"),
    }
}

#[test]
fn cursor_walks_primitives() {
    let data = b"i7e4:spam";
    let mut d = Deserializer::from_bytes(data);
    assert_eq!(d.peek(), Some(b'i'));
    assert_eq!(d.parse_int(), Ok(7));
    assert_eq!(d.peek(), Some(b'4'));
    assert_eq!(d.parse_byte_string(), Ok(&b"spam"[..]));
    assert!(d.done());
    assert_eq!(d.peek(), None);
}

#[test]
fn cursor_walks_aggregates() {
    let data = b"ld1:ai1eee";
    let mut d = Deserializer::from_bytes(data);
    assert_eq!(d.consume_list_open(), Ok(()));
    assert_eq!(d.consume_dict_open(), Ok(()));
    assert_eq!(d.parse_byte_string(), Ok(&b"a"[..]));
    assert_eq!(d.parse_int(), Ok(1));
    assert_eq!(d.consume_end_marker(), Ok(()));
    assert_eq!(d.consume_end_marker(), Ok(()));
    assert!(d.done());
}

#[test]
fn cursor_rejects_wrong_lookahead() {
    let mut d = Deserializer::from_bytes(b"4:spam");
    assert_eq!(d.consume_list_open(), Err(Error::UnexpectedStructure));
    assert_eq!(d.parse_int(), Err(Error::UnexpectedStructure));
    // nothing was consumed by the failures
    assert_eq!(d.parse_byte_string(), Ok(&b"spam"[..]));
    assert!(d.done());
}

#[test]
fn cursor_int_errors_carry_their_kind() {
    let mut d = Deserializer::from_bytes(b"i99999999999999999999e");
    assert_eq!(d.parse_int(), Err(Error::IntegerOverflow));
    let mut d2 = Deserializer::from_bytes(b"i12x");
    assert_eq!(d2.parse_int(), Err(Error::MalformedPrimitive));
}

#[test]
fn error_messages_name_the_kind() {
    assert_eq!(Error::IntegerOverflow.message(), "integer overflow");
    assert_eq!(Error::TrailingBytes.message(), "trailing bytes");
}
