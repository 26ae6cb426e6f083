use bencode::decode::decode_value;
use bencode::value::Value;
use bencode::Error;

#[test]
fn decode_test1() {
    let data = b"d3:numi1e1:bd1:ii32e1:ji64eee";
    let x = decode_value(data).unwrap();
    let y = Value::Dict(vec![
        (&b"num"[..], Value::Int(1)),
        (
            &b"b"[..],
            Value::Dict(vec![
                (&b"i"[..], Value::Int(32)),
                (&b"j"[..], Value::Int(64)),
            ]),
        ),
    ]);
    assert_eq!(x, y)
}

#[test]
fn decode_test2() {
    let data = b"d3:numi1e1:bd1:ii32e1:j4:weeeee";
    let x = decode_value(data).unwrap();
    let y = Value::Dict(vec![
        (&b"num"[..], Value::Int(1)),
        (
            &b"b"[..],
            Value::Dict(vec![
                (&b"i"[..], Value::Int(32)),
                (&b"j"[..], Value::Bytes(b"weee")),
            ]),
        ),
    ]);
    assert_eq!(x, y)
}

#[test]
fn decode_test3() {
    let data = b"d1:ad2:id20:abcdefghij0123456789e1:q4:ping1:t2:aa1:y1:qe";
    let x = decode_value(data).unwrap();
    let y = Value::Dict(vec![
        (
            &b"a"[..],
            Value::Dict(vec![(&b"id"[..], Value::Bytes(b"abcdefghij0123456789"))]),
        ),
        (&b"q"[..], Value::Bytes(b"ping")),
        (&b"t"[..], Value::Bytes(b"aa")),
        (&b"y"[..], Value::Bytes(b"q")),
    ]);
    assert_eq!(x, y)
}

#[test]
fn truncated_length_fails() {
    // claims 5 bytes, only 2 present; must not read past the buffer
    assert_eq!(decode_value(b"5:ab"), Err(Error::MalformedPrimitive));
}

#[test]
fn overflow_fails() {
    // exceeds 2^64 - 1
    assert_eq!(
        decode_value(b"i99999999999999999999e"),
        Err(Error::IntegerOverflow)
    );
}

#[test]
fn u64_max_decodes() {
    assert_eq!(
        decode_value(b"i18446744073709551615e"),
        Ok(Value::Int(u64::MAX))
    );
    assert_eq!(
        decode_value(b"i18446744073709551616e"),
        Err(Error::IntegerOverflow)
    );
}

#[test]
fn trailing_bytes_fail() {
    assert_eq!(decode_value(b"i1ex"), Err(Error::TrailingBytes));
    assert_eq!(decode_value(b"i1e"), Ok(Value::Int(1)));
}

#[test]
fn empty_input_fails() {
    assert_eq!(decode_value(b""), Err(Error::UnexpectedStructure));
}

#[test]
fn unknown_lookahead_fails() {
    assert_eq!(decode_value(b"x"), Err(Error::UnexpectedStructure));
}

#[test]
fn signed_integer_fails() {
    assert_eq!(decode_value(b"i-1e"), Err(Error::MalformedPrimitive));
}

#[test]
fn bare_terminator_fails() {
    // zero digits before the terminator is a grammar error, not zero
    assert_eq!(decode_value(b"ie"), Err(Error::MalformedPrimitive));
}

#[test]
fn leading_zero_fails() {
    assert_eq!(decode_value(b"i01e"), Err(Error::MalformedPrimitive));
    assert_eq!(decode_value(b"i0e"), Ok(Value::Int(0)));
    assert_eq!(decode_value(b"01:a"), Err(Error::MalformedPrimitive));
}

#[test]
fn empty_string_decodes() {
    assert_eq!(decode_value(b"0:"), Ok(Value::Bytes(b"")));
}

#[test]
fn empty_aggregates_decode() {
    assert_eq!(decode_value(b"le"), Ok(Value::List(vec![])));
    assert_eq!(decode_value(b"de"), Ok(Value::Dict(vec![])));
}

#[test]
fn missing_end_marker_fails() {
    assert_eq!(decode_value(b"li1e"), Err(Error::UnexpectedStructure));
    assert_eq!(decode_value(b"d1:ai1e"), Err(Error::UnexpectedStructure));
}

#[test]
fn non_string_key_fails() {
    assert_eq!(decode_value(b"di1ei2ee"), Err(Error::UnexpectedStructure));
}

#[test]
fn duplicate_keys_kept_in_order() {
    // duplicate keys are not deduplicated and source order is preserved
    let x = decode_value(b"d1:ai1e1:ai2ee").unwrap();
    let y = Value::Dict(vec![
        (&b"a"[..], Value::Int(1)),
        (&b"a"[..], Value::Int(2)),
    ]);
    assert_eq!(x, y);
}

#[test]
fn nested_list_decodes() {
    let x = decode_value(b"lli1eel4:spamee").unwrap();
    let y = Value::List(vec![
        Value::List(vec![Value::Int(1)]),
        Value::List(vec![Value::Bytes(b"spam")]),
    ]);
    assert_eq!(x, y);
}
