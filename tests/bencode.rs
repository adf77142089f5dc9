use rdht::errors::{Error, ParseError};
use rdht::util::bencode;
use rdht::util::bencode::Value;

fn s(t: &str) -> Value {
    Value::String(t.as_bytes().to_vec())
}

fn k(t: &str) -> Vec<u8> {
    t.as_bytes().to_vec()
}

fn perr(e: ParseError) -> Result<Value, Error> {
    Err(Error::BencodeParseError(e))
}

#[test]
fn test_decode_int() {
    assert_eq!(bencode::decode(b"i54e"), Ok(Value::Integer(54)));
    assert_eq!(bencode::decode(b"i0e"), Ok(Value::Integer(0)));
    assert_eq!(bencode::decode(b"54e"), perr(ParseError::InvalidFormat));
    assert_eq!(bencode::decode(b"54"), perr(ParseError::InvalidFormat));
    assert_eq!(bencode::decode(b"i54"), perr(ParseError::InvalidFormat));
    assert_eq!(bencode::decode(b"ie"), perr(ParseError::EmptyInteger));
}

#[test]
fn test_decode_str() {
    assert_eq!(bencode::decode(b"5:hello"), Ok(s("hello")));
    assert_eq!(
        bencode::decode(b"5:hell"),
        perr(ParseError::StringLength { want: 5, got: 4 })
    );
    assert_eq!(bencode::decode(b"4:hello"), Ok(s("hell")));
}

#[test]
fn test_decode_list() {
    assert_eq!(
        bencode::decode(b"l5:hello5:worldi1234ee"),
        Ok(Value::List(vec![s("hello"), s("world"), Value::Integer(1234)]))
    );
    assert_eq!(
        bencode::decode(b"l5:hello5:worldi1234e"),
        perr(ParseError::ListEnd)
    );
    // the value that should follow "5:hell5" starts with ':' at offset 8
    assert_eq!(
        bencode::decode(b"l5:hell5:worldi1234e"),
        perr(ParseError::InvalidContent(8))
    );
}

#[test]
fn test_decode_dict() {
    assert_eq!(
        bencode::decode(b"d7:balancei1000e4:coin3:btc4:name5:jisene"),
        Ok(Value::Dict(vec![
            (k("balance"), Value::Integer(1000)),
            (k("coin"), s("btc")),
            (k("name"), s("jisen")),
        ]))
    );
    assert_eq!(
        bencode::decode(b"d7:balancei1000e4:coin3:btc4:name5:jisen"),
        perr(ParseError::DictEnd)
    );
    assert_eq!(
        bencode::decode(b"d1:ad2:id20:abcdefghij0123456789e1:q4:ping1:t2:aa1:y1:qe"),
        Ok(Value::Dict(vec![
            (
                k("a"),
                Value::Dict(vec![(k("id"), s("abcdefghij0123456789"))])
            ),
            (k("q"), s("ping")),
            (k("t"), s("aa")),
            (k("y"), s("q")),
        ]))
    );
    assert_eq!(
        bencode::decode(b"d1:eli201e23:A Generic Error Ocurrede1:t2:aa1:y1:ee"),
        Ok(Value::Dict(vec![
            (
                k("e"),
                Value::List(vec![Value::Integer(201), s("A Generic Error Ocurred")])
            ),
            (k("t"), s("aa")),
            (k("y"), s("e")),
        ]))
    );
}

#[test]
fn decode_sorts_keys_and_keeps_the_last_duplicate() {
    assert_eq!(
        bencode::decode(b"d1:bi1e1:ai2e1:bi3ee"),
        Ok(Value::Dict(vec![
            (k("a"), Value::Integer(2)),
            (k("b"), Value::Integer(3)),
        ]))
    );
}

#[test]
fn decode_integer_edges() {
    assert_eq!(bencode::decode(b"i-42e"), Ok(Value::Integer(-42)));
    assert_eq!(bencode::decode(b"i-0e"), perr(ParseError::InvalidInteger));
    assert_eq!(bencode::decode(b"i03e"), perr(ParseError::InvalidInteger));
    assert_eq!(
        bencode::decode(b"i9223372036854775807e"),
        Ok(Value::Integer(i64::MAX))
    );
    assert_eq!(
        bencode::decode(b"i-9223372036854775808e"),
        Ok(Value::Integer(i64::MIN))
    );
    assert_eq!(
        bencode::decode(b"i9223372036854775808e"),
        perr(ParseError::InvalidInteger)
    );
    assert_eq!(
        bencode::decode(b"i99999999999999999999999e"),
        perr(ParseError::InvalidInteger)
    );
}

#[test]
fn decode_other_errors() {
    assert_eq!(bencode::decode(b""), perr(ParseError::InvalidContent(0)));
    assert_eq!(bencode::decode(b"x"), perr(ParseError::InvalidContent(0)));
    assert_eq!(bencode::decode(b"di1ei2ee"), perr(ParseError::DictKey));
    assert_eq!(bencode::decode(b"l"), perr(ParseError::ListEnd));
    assert_eq!(bencode::decode(b"d"), perr(ParseError::DictEnd));
    assert_eq!(bencode::decode(b"0:"), Ok(s("")));
}

#[test]
fn encode_values() {
    assert_eq!(s("spam").encode(), Ok(b"4:spam".to_vec()));
    assert_eq!(s("").encode(), Ok(b"0:".to_vec()));
    assert_eq!(Value::Integer(-3).encode(), Ok(b"i-3e".to_vec()));
    assert_eq!(Value::Integer(0).encode(), Ok(b"i0e".to_vec()));
    assert_eq!(
        Value::Integer(i64::MIN).encode(),
        Ok(b"i-9223372036854775808e".to_vec())
    );
    assert_eq!(
        Value::List(vec![s("a"), Value::Integer(12)]).encode(),
        Ok(b"l1:ai12ee".to_vec())
    );
    assert_eq!(
        Value::Dict(vec![(k("a"), Value::Integer(1)), (k("b"), s("x"))]).encode(),
        Ok(b"d1:ai1e1:b1:xe".to_vec())
    );
}

#[test]
fn encode_sorts_keys_and_rejects_repeated_ones() {
    assert_eq!(
        Value::Dict(vec![(k("b"), Value::Integer(1)), (k("a"), Value::Integer(2))]).encode(),
        Ok(b"d1:ai2e1:bi1ee".to_vec())
    );
    assert_eq!(
        Value::List(vec![Value::Dict(vec![
            (k("zz"), s("")),
            (k("z"), s("1")),
            (k("a"), Value::Dict(vec![(k("y"), s("")), (k("x"), s(""))])),
        ])])
        .encode(),
        Ok(b"ld1:ad1:x0:1:y0:e1:z1:12:zz0:ee".to_vec())
    );
    assert_eq!(
        Value::Dict(vec![(k("a"), Value::Integer(1)), (k("a"), Value::Integer(2))]).encode(),
        Err(Error::InvalidValue)
    );
    assert_eq!(
        Value::List(vec![Value::Dict(vec![(k("b"), s("")), (k("c"), s("")), (k("b"), s(""))])]).encode(),
        Err(Error::InvalidValue)
    );
}

#[test]
fn decoded_values_encode_back_to_their_bytes() {
    let inputs: [&[u8]; 5] = [
        b"d1:ad2:id20:abcdefghij0123456789e1:q4:ping1:t2:aa1:y1:qe",
        b"l5:hello5:worldi1234ee",
        b"d7:balancei1000e4:coin3:btc4:name5:jisene",
        b"i-17e",
        b"lld0:i0eeee",
    ];
    for input in inputs {
        let v = bencode::decode(input).unwrap();
        let bytes = v.encode().unwrap();
        assert_eq!(bytes, input.to_vec());
        assert_eq!(bencode::decode(&bytes), Ok(v));
    }
}

#[test]
fn canonical_encoding_sorts_what_decode_read() {
    let v = bencode::decode(b"d1:zi1e1:ai2ee").unwrap();
    assert_eq!(v.encode(), Ok(b"d1:ai2e1:zi1ee".to_vec()));
}
