use bencode::encode::{encode_value, Serializer};
use bencode::value::Value;

#[test]
fn encode_test1() {
    let data = b"d3:numi1e1:bd1:ii32e1:ji64eee";
    let y = Value::Dict(vec![
        (&b"num"[..], Value::Int(1)),
        (
            &b"b"[..],
            Value::Dict(vec![
                (&b"i"[..], Value::Int(32)),
                (&b"j"[..], Value::Int(64)),
            ]),
        ),
    ]);
    let x = encode_value(&y);
    assert_eq!(x, data)
}

#[test]
fn encode_test2() {
    let data = b"d3:numi1e1:bd1:ii32e1:j4:weedee";
    let y = Value::Dict(vec![
        (&b"num"[..], Value::Int(1)),
        (
            &b"b"[..],
            Value::Dict(vec![
                (&b"i"[..], Value::Int(32)),
                (&b"j"[..], Value::Bytes(b"weed")),
            ]),
        ),
    ]);
    let x = encode_value(&y);
    assert_eq!(x, data)
}

#[test]
fn encode_test3() {
    let data = b"d1:ad2:id20:abcdefghij0123456789e1:q4:ping1:t2:aa1:y1:qe";
    let y = Value::Dict(vec![
        (
            &b"a"[..],
            Value::Dict(vec![(&b"id"[..], Value::Bytes(b"abcdefghij0123456789"))]),
        ),
        (&b"q"[..], Value::Bytes(b"ping")),
        (&b"t"[..], Value::Bytes(b"aa")),
        (&b"y"[..], Value::Bytes(b"q")),
    ]);
    let x = encode_value(&y);
    assert_eq!(x, data)
}

#[test]
fn encode_integers() {
    assert_eq!(encode_value(&Value::Int(0)), b"i0e");
    assert_eq!(encode_value(&Value::Int(7)), b"i7e");
    assert_eq!(encode_value(&Value::Int(1234567890)), b"i1234567890e");
    assert_eq!(
        encode_value(&Value::Int(u64::MAX)),
        b"i18446744073709551615e"
    );
}

#[test]
fn encode_byte_strings() {
    assert_eq!(encode_value(&Value::Bytes(b"")), b"0:");
    assert_eq!(encode_value(&Value::Bytes(b"spam")), b"4:spam");
    // raw bytes go through verbatim, no escaping, not required to be text
    assert_eq!(
        encode_value(&Value::Bytes(&[0xffu8, 0x00, 0x65])),
        &[b'3', b':', 0xff, 0x00, 0x65]
    );
}

#[test]
fn encode_aggregates() {
    assert_eq!(encode_value(&Value::List(vec![])), b"le");
    assert_eq!(encode_value(&Value::Dict(vec![])), b"de");
    let v = Value::List(vec![Value::Int(1), Value::Bytes(b"ab")]);
    assert_eq!(encode_value(&v), b"li1e2:abe");
}

#[test]
fn encode_keeps_caller_key_order() {
    // the engine writes entries in the order the caller yields them
    let v = Value::Dict(vec![
        (&b"z"[..], Value::Int(1)),
        (&b"a"[..], Value::Int(2)),
    ]);
    assert_eq!(encode_value(&v), b"d1:zi1e1:ai2ee");
}

#[test]
fn serializer_writes_grammar_directly() {
    // the writer discipline mirrors the grammar piece by piece
    let mut s = Serializer::new();
    s.begin_dict();
    s.write_byte_string(b"n");
    s.write_int(42);
    s.write_byte_string(b"l");
    s.begin_list();
    s.write_byte_string(b"xy");
    s.end_aggregate();
    s.end_aggregate();
    assert_eq!(s.into_bytes(), b"d1:ni42e1:ll2:xyee");
}
