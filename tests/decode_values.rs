use bencode_torrent::decode::{decode_bencoded_value, decode_with_max_depth};
use bencode_torrent::value::{DecodeError, Value};

fn bytes(s: &str) -> Value {
    Value::ByteString(s.as_bytes().to_vec())
}

#[test]
fn integer_positive() {
    let (v, rest) = decode_bencoded_value(b"i42e").unwrap();
    assert_eq!(v, Value::Integer(42));
    assert!(rest.is_empty());
}

#[test]
fn integer_negative_and_zero() {
    assert_eq!(decode_bencoded_value(b"i-42e").unwrap().0, Value::Integer(-42));
    assert_eq!(decode_bencoded_value(b"i0e").unwrap().0, Value::Integer(0));
}

#[test]
fn integer_round_trip_over_samples() {
    for n in [0i64, 1, -1, 7, 10, -10, 123456789, i64::MAX, i64::MIN] {
        let text = format!("i{}e", n);
        let (v, rest) = decode_bencoded_value(text.as_bytes()).unwrap();
        assert_eq!(v, Value::Integer(n));
        assert!(rest.is_empty());
    }
}

#[test]
fn integer_with_plus_sign_is_read() {
    assert_eq!(decode_bencoded_value(b"i+5e").unwrap().0, Value::Integer(5));
}

#[test]
fn integer_out_of_range_is_malformed() {
    assert_eq!(decode_bencoded_value(b"i9223372036854775808e"), Err(DecodeError::MalformedInteger));
    assert_eq!(decode_bencoded_value(b"i-9223372036854775809e"), Err(DecodeError::MalformedInteger));
}

#[test]
fn malformed_integers() {
    assert_eq!(decode_bencoded_value(b"i e"), Err(DecodeError::MalformedInteger));
    assert_eq!(decode_bencoded_value(b"iabce"), Err(DecodeError::MalformedInteger));
    assert_eq!(decode_bencoded_value(b"ie"), Err(DecodeError::MalformedInteger));
    assert_eq!(decode_bencoded_value(b"i-e"), Err(DecodeError::MalformedInteger));
    assert_eq!(decode_bencoded_value(b"i12"), Err(DecodeError::MalformedInteger));
}

#[test]
fn byte_string_plain() {
    let (v, rest) = decode_bencoded_value(b"4:spam").unwrap();
    assert_eq!(v, bytes("spam"));
    assert!(rest.is_empty());
}

#[test]
fn byte_string_empty() {
    let (v, rest) = decode_bencoded_value(b"0:").unwrap();
    assert_eq!(v, Value::ByteString(vec![]));
    assert!(rest.is_empty());
}

#[test]
fn byte_string_binary_payload() {
    let payload: Vec<u8> = vec![0, 255, 101, 58, 200, 10, 13, 128, 0, 1, 2, 3];
    let mut input = format!("{}:", payload.len()).into_bytes();
    input.extend_from_slice(&payload);
    let (v, rest) = decode_bencoded_value(&input).unwrap();
    assert_eq!(v, Value::ByteString(payload));
    assert!(rest.is_empty());
}

#[test]
fn byte_string_truncated() {
    assert_eq!(decode_bencoded_value(b"5:ab"), Err(DecodeError::TruncatedString));
    assert_eq!(
        decode_bencoded_value(b"99999999999999999999999:ab"),
        Err(DecodeError::TruncatedString)
    );
}

#[test]
fn byte_string_without_colon() {
    assert_eq!(decode_bencoded_value(b"3abc"), Err(DecodeError::UnrecognizedValue));
    assert_eq!(decode_bencoded_value(b"12"), Err(DecodeError::UnrecognizedValue));
}

#[test]
fn remainder_is_returned() {
    let (v, rest) = decode_bencoded_value(b"i1eabc").unwrap();
    assert_eq!(v, Value::Integer(1));
    assert_eq!(rest, b"abc".to_vec());
    let (v, rest) = decode_bencoded_value(b"3:abcxyz").unwrap();
    assert_eq!(v, bytes("abc"));
    assert_eq!(rest, b"xyz".to_vec());
}

#[test]
fn empty_list_and_dictionary() {
    assert_eq!(decode_bencoded_value(b"le").unwrap(), (Value::List(vec![]), vec![]));
    assert_eq!(decode_bencoded_value(b"de").unwrap(), (Value::Dictionary(vec![]), vec![]));
}

#[test]
fn nested_list() {
    let (v, rest) = decode_bencoded_value(b"l4:spami42ee").unwrap();
    assert_eq!(v, Value::List(vec![bytes("spam"), Value::Integer(42)]));
    assert!(rest.is_empty());
}

#[test]
fn deeper_nesting() {
    let (v, _) = decode_bencoded_value(b"lli1eeli2ei3eee").unwrap();
    assert_eq!(
        v,
        Value::List(vec![
            Value::List(vec![Value::Integer(1)]),
            Value::List(vec![Value::Integer(2), Value::Integer(3)]),
        ])
    );
}

#[test]
fn dictionary_keeps_encounter_order() {
    let (v, rest) = decode_bencoded_value(b"d3:cow3:moo4:spam4:eggse").unwrap();
    assert_eq!(
        v,
        Value::Dictionary(vec![
            (b"cow".to_vec(), bytes("moo")),
            (b"spam".to_vec(), bytes("eggs")),
        ])
    );
    assert!(rest.is_empty());
    let (v, _) = decode_bencoded_value(b"d4:spam4:eggs3:cow3:mooe").unwrap();
    assert_eq!(
        v,
        Value::Dictionary(vec![
            (b"spam".to_vec(), bytes("eggs")),
            (b"cow".to_vec(), bytes("moo")),
        ])
    );
}

#[test]
fn dictionary_repeated_key_keeps_one_entry() {
    let (v, _) = decode_bencoded_value(b"d1:ai1e1:bi2e1:ai3ee").unwrap();
    assert_eq!(
        v,
        Value::Dictionary(vec![(b"a".to_vec(), Value::Integer(3)), (b"b".to_vec(), Value::Integer(2))])
    );
}

#[test]
fn dictionary_non_string_key() {
    assert_eq!(decode_bencoded_value(b"di1e3:abce"), Err(DecodeError::NonStringKey));
    assert_eq!(decode_bencoded_value(b"dlei1ee"), Err(DecodeError::NonStringKey));
}

#[test]
fn unrecognized_values() {
    assert_eq!(decode_bencoded_value(b""), Err(DecodeError::UnrecognizedValue));
    assert_eq!(decode_bencoded_value(b"x"), Err(DecodeError::UnrecognizedValue));
    assert_eq!(decode_bencoded_value(b"e"), Err(DecodeError::UnrecognizedValue));
}

#[test]
fn unterminated_containers() {
    assert_eq!(decode_bencoded_value(b"l"), Err(DecodeError::UnrecognizedValue));
    assert_eq!(decode_bencoded_value(b"li1e"), Err(DecodeError::UnrecognizedValue));
    assert_eq!(decode_bencoded_value(b"d3:cow"), Err(DecodeError::UnrecognizedValue));
}

#[test]
fn nesting_limit() {
    assert_eq!(decode_with_max_depth(b"llee", 1), Err(DecodeError::NestingTooDeep));
    assert_eq!(
        decode_with_max_depth(b"llee", 2).unwrap().0,
        Value::List(vec![Value::List(vec![])])
    );
    assert_eq!(decode_with_max_depth(b"de", 0), Err(DecodeError::NestingTooDeep));
    assert_eq!(decode_with_max_depth(b"i7e", 0).unwrap().0, Value::Integer(7));
    let deep: Vec<u8> = std::iter::repeat(b'l').take(100000).collect();
    assert_eq!(decode_bencoded_value(&deep), Err(DecodeError::NestingTooDeep));
}
