use bittorrent_core::{decode, decode_all, encode, BencodeValue, TorrentError, MAX_DEPTH};

fn bytes(s: &str) -> BencodeValue {
    BencodeValue::ByteString(s.as_bytes().to_vec())
}

#[test]
fn decodes_byte_string() {
    assert_eq!(decode(b"4:spam", 0), Ok((bytes("spam"), 6)));
}

#[test]
fn decodes_empty_byte_string() {
    assert_eq!(decode(b"0:", 0), Ok((bytes(""), 2)));
}

#[test]
fn decodes_positive_integer() {
    assert_eq!(decode(b"i52e", 0), Ok((BencodeValue::Integer(52), 4)));
}

#[test]
fn decodes_negative_integer() {
    assert_eq!(decode(b"i-52e", 0), Ok((BencodeValue::Integer(-52), 5)));
}

#[test]
fn decodes_zero() {
    assert_eq!(decode(b"i0e", 0), Ok((BencodeValue::Integer(0), 3)));
}

#[test]
fn decodes_integer_extremes() {
    assert_eq!(decode_all(b"i9223372036854775807e"), Ok(BencodeValue::Integer(i64::MAX)));
    assert_eq!(decode_all(b"i-9223372036854775808e"), Ok(BencodeValue::Integer(i64::MIN)));
}

#[test]
fn rejects_integer_overflow() {
    assert_eq!(decode_all(b"i9223372036854775808e"), Err(TorrentError::MalformedInput));
    assert_eq!(decode_all(b"i-9223372036854775809e"), Err(TorrentError::MalformedInput));
}

#[test]
fn decodes_list() {
    assert_eq!(
        decode(b"l4:spam4:eggse", 0),
        Ok((BencodeValue::List(vec![bytes("spam"), bytes("eggs")]), 14))
    );
}

#[test]
fn decodes_dictionary() {
    let expected = BencodeValue::Dictionary(vec![
        (b"cow".to_vec(), bytes("moo")),
        (b"spam".to_vec(), bytes("eggs")),
    ]);
    assert_eq!(decode(b"d3:cow3:moo4:spam4:eggse", 0), Ok((expected, 24)));
}

#[test]
fn decodes_at_offset() {
    assert_eq!(decode(b"i1ei22e", 3), Ok((BencodeValue::Integer(22), 7)));
}

#[test]
fn nested_structures_decode() {
    let v = decode_all(b"lli543e9:blueberryee").unwrap();
    assert_eq!(
        v,
        BencodeValue::List(vec![BencodeValue::List(vec![BencodeValue::Integer(543), bytes("blueberry")])])
    );
    let w = decode_all(b"lli4eei5ee").unwrap();
    assert_eq!(
        w,
        BencodeValue::List(vec![BencodeValue::List(vec![BencodeValue::Integer(4)]), BencodeValue::Integer(5)])
    );
}

#[test]
fn short_byte_string_is_unexpected_end() {
    assert_eq!(decode(b"5:hi", 0), Err(TorrentError::UnexpectedEnd));
}

#[test]
fn negative_zero_is_malformed() {
    assert_eq!(decode(b"i-0e", 0), Err(TorrentError::MalformedInput));
}

#[test]
fn leading_zeros_are_malformed() {
    assert_eq!(decode(b"i03e", 0), Err(TorrentError::MalformedInput));
    assert_eq!(decode(b"04:spam", 0), Err(TorrentError::MalformedInput));
}

#[test]
fn truncated_inputs_are_unexpected_end() {
    assert_eq!(decode(b"", 0), Err(TorrentError::UnexpectedEnd));
    assert_eq!(decode(b"i52", 0), Err(TorrentError::UnexpectedEnd));
    assert_eq!(decode(b"i-", 0), Err(TorrentError::UnexpectedEnd));
    assert_eq!(decode(b"l4:spam", 0), Err(TorrentError::UnexpectedEnd));
    assert_eq!(decode(b"d3:cow", 0), Err(TorrentError::UnexpectedEnd));
    assert_eq!(decode(b"12", 0), Err(TorrentError::UnexpectedEnd));
    assert_eq!(decode(b"4:spam", 7), Err(TorrentError::UnexpectedEnd));
}

#[test]
fn grammar_violations_are_malformed() {
    assert_eq!(decode(b"x", 0), Err(TorrentError::MalformedInput));
    assert_eq!(decode(b"ie", 0), Err(TorrentError::MalformedInput));
    assert_eq!(decode(b"i1-2e", 0), Err(TorrentError::MalformedInput));
    assert_eq!(decode(b"4-spam", 0), Err(TorrentError::MalformedInput));
    assert_eq!(decode(b"di1e3:fooe", 0), Err(TorrentError::MalformedInput));
    assert_eq!(decode_all(b"i1ei2e"), Err(TorrentError::MalformedInput));
}

#[test]
fn nesting_is_bounded() {
    let deep_ok = format!("{}{}", "l".repeat(MAX_DEPTH), "e".repeat(MAX_DEPTH));
    assert!(decode_all(deep_ok.as_bytes()).is_ok());
    let too_deep = format!("{}{}", "l".repeat(MAX_DEPTH + 1), "e".repeat(MAX_DEPTH + 1));
    assert_eq!(decode_all(too_deep.as_bytes()), Err(TorrentError::MalformedInput));
}

#[test]
fn dictionary_keeps_any_key_order_and_repeats() {
    let v = decode_all(b"d1:bi1e1:ai2e1:bi3ee").unwrap();
    assert_eq!(encode(&v), b"d1:bi1e1:ai2e1:bi3ee".to_vec());
    assert_eq!(v.get(b"b"), Some(&BencodeValue::Integer(3)));
    assert_eq!(v.get(b"a"), Some(&BencodeValue::Integer(2)));
    assert_eq!(v.get(b"c"), None);
    assert_eq!(BencodeValue::Integer(1).get(b"a"), None);
}

#[test]
fn encodes_known_vectors() {
    assert_eq!(encode(&bytes("spam")), b"4:spam".to_vec());
    assert_eq!(encode(&BencodeValue::Integer(-52)), b"i-52e".to_vec());
    assert_eq!(encode(&BencodeValue::Integer(i64::MIN)), b"i-9223372036854775808e".to_vec());
    assert_eq!(encode(&BencodeValue::List(vec![])), b"le".to_vec());
    let d = BencodeValue::Dictionary(vec![(b"spam".to_vec(), bytes("eggs")), (b"cow".to_vec(), bytes("moo"))]);
    assert_eq!(encode(&d), b"d4:spam4:eggs3:cow3:mooe".to_vec());
}

#[test]
fn round_trip_of_decoded_values() {
    let samples: Vec<&[u8]> = vec![
        b"4:spam",
        b"i-52e",
        b"l4:spam4:eggse",
        b"d3:cow3:moo4:spam4:eggse",
        b"d4:infod6:lengthi7e4:name1:xee",
        b"lli543e9:blueberryee",
        b"0:",
    ];
    for s in samples {
        let v = decode_all(s).unwrap();
        let e = encode(&v);
        assert_eq!(e, s.to_vec());
        assert_eq!(decode(&e, 0), Ok((v, e.len())));
    }
}
