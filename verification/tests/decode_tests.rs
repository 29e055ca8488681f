use bittorrent::bencode::BencodeValue;
use bittorrent::bencode::DecodeError;
use bittorrent::decode::decode;
use bittorrent::decode::decode_at;

fn bytes(text: &str) -> BencodeValue {
    BencodeValue::ByteString(text.as_bytes().to_vec())
}

#[test]
fn decodes_integers() {
    assert_eq!(decode(b"i42e", 0), Ok((BencodeValue::Integer(42), 4)));
    assert_eq!(decode(b"i-1e", 0), Ok((BencodeValue::Integer(-1), 4)));
    assert_eq!(decode(b"i+7e", 0), Ok((BencodeValue::Integer(7), 4)));
    assert_eq!(decode(b"i007e", 0), Ok((BencodeValue::Integer(7), 5)));
    assert_eq!(decode(b"i-0e", 0), Ok((BencodeValue::Integer(0), 4)));
}

#[test]
fn decodes_integer_limits() {
    assert_eq!(
        decode(b"i9223372036854775807e", 0),
        Ok((BencodeValue::Integer(i64::MAX), 21))
    );
    assert_eq!(
        decode(b"i-9223372036854775808e", 0),
        Ok((BencodeValue::Integer(i64::MIN), 22))
    );
    assert_eq!(decode(b"i9223372036854775808e", 0), Err(DecodeError::MalformedInteger));
    assert_eq!(decode(b"i-9223372036854775809e", 0), Err(DecodeError::MalformedInteger));
    assert_eq!(
        decode(b"i99999999999999999999999999999999999999999999e", 0),
        Err(DecodeError::MalformedInteger)
    );
}

#[test]
fn rejects_malformed_integers() {
    assert_eq!(decode(b"ie", 0), Err(DecodeError::MalformedInteger));
    assert_eq!(decode(b"i-e", 0), Err(DecodeError::MalformedInteger));
    assert_eq!(decode(b"i+e", 0), Err(DecodeError::MalformedInteger));
    assert_eq!(decode(b"i12", 0), Err(DecodeError::MalformedInteger));
    assert_eq!(decode(b"i1x2e", 0), Err(DecodeError::MalformedInteger));
    assert_eq!(decode(b"i--1e", 0), Err(DecodeError::MalformedInteger));
    assert_eq!(decode(b"i", 0), Err(DecodeError::MalformedInteger));
}

#[test]
fn decodes_strings() {
    assert_eq!(decode(b"4:spam", 0), Ok((bytes("spam"), 6)));
    assert_eq!(decode(b"0:", 0), Ok((bytes(""), 2)));
    assert_eq!(decode(b"4:spamtail", 0), Ok((bytes("spam"), 6)));
    assert_eq!(
        decode(&[b'2', b':', 0xff, 0x00], 0),
        Ok((BencodeValue::ByteString(vec![0xff, 0x00]), 4))
    );
    assert_eq!(decode(b"010:0123456789", 0), Ok((bytes("0123456789"), 14)));
}

#[test]
fn rejects_malformed_lengths() {
    assert_eq!(decode(b"5:spam", 0), Err(DecodeError::MalformedLength));
    assert_eq!(decode(b"4spam", 0), Err(DecodeError::MalformedLength));
    assert_eq!(decode(b"4", 0), Err(DecodeError::MalformedLength));
    assert_eq!(decode(b"4x:spam", 0), Err(DecodeError::MalformedLength));
    assert_eq!(
        decode(b"99999999999999999999999999999999999999999999:x", 0),
        Err(DecodeError::MalformedLength)
    );
}

#[test]
fn decodes_lists() {
    assert_eq!(
        decode(b"l4:spam4:eggse", 0),
        Ok((BencodeValue::List(vec![bytes("spam"), bytes("eggs")]), 14))
    );
    assert_eq!(decode(b"le", 0), Ok((BencodeValue::List(vec![]), 2)));
    assert_eq!(
        decode(b"lli1eei2ee", 0),
        Ok((
            BencodeValue::List(vec![
                BencodeValue::List(vec![BencodeValue::Integer(1)]),
                BencodeValue::Integer(2),
            ]),
            10
        ))
    );
}

#[test]
fn decodes_dictionaries_in_order() {
    assert_eq!(
        decode(b"d3:cow3:moo4:spam4:eggse", 0),
        Ok((
            BencodeValue::Dictionary(vec![
                (b"cow".to_vec(), bytes("moo")),
                (b"spam".to_vec(), bytes("eggs")),
            ]),
            24
        ))
    );
    assert_eq!(
        decode(b"d1:zi1e1:ai2ee", 0),
        Ok((
            BencodeValue::Dictionary(vec![
                (b"z".to_vec(), BencodeValue::Integer(1)),
                (b"a".to_vec(), BencodeValue::Integer(2)),
            ]),
            14
        ))
    );
    assert_eq!(decode(b"de", 0), Ok((BencodeValue::Dictionary(vec![]), 2)));
}

#[test]
fn rejects_non_string_key() {
    assert_eq!(decode(b"d3:cowi4ei4ee", 0), Err(DecodeError::NonStringKey));
    assert_eq!(decode(b"dlei1ee", 0), Err(DecodeError::NonStringKey));
}

#[test]
fn rejects_unknown_tags_and_empty_input() {
    assert_eq!(decode(b"", 0), Err(DecodeError::UnrecognizedTag));
    assert_eq!(decode(b"x", 0), Err(DecodeError::UnrecognizedTag));
    assert_eq!(decode(b"e", 0), Err(DecodeError::UnrecognizedTag));
    assert_eq!(decode(b"i1e", 3), Err(DecodeError::UnrecognizedTag));
    assert_eq!(decode(b"i1e", 9), Err(DecodeError::UnrecognizedTag));
    assert_eq!(decode(b"li1e", 0), Err(DecodeError::UnrecognizedTag));
    assert_eq!(decode(b"d1:a", 0), Err(DecodeError::UnrecognizedTag));
    assert_eq!(decode(b"d1:ai1e", 0), Err(DecodeError::UnrecognizedTag));
}

#[test]
fn inner_errors_abort_the_whole_decode() {
    assert_eq!(decode(b"li1e9:spame", 0), Err(DecodeError::MalformedLength));
    assert_eq!(decode(b"d1:aixee", 0), Err(DecodeError::MalformedInteger));
    assert_eq!(decode(b"ld1:ai1ei2ei3eee", 0), Err(DecodeError::NonStringKey));
}

#[test]
fn decodes_at_an_offset() {
    let buffer = b"4:spami42e";
    assert_eq!(decode(buffer, 6), Ok((BencodeValue::Integer(42), 4)));
    assert_eq!(decode_at(buffer, 6), Ok((BencodeValue::Integer(42), 10)));
    assert_eq!(decode_at(buffer, 0), Ok((bytes("spam"), 6)));
}

#[test]
fn every_proper_prefix_fails() {
    let whole: &[u8] = b"d3:cowl3:mooi-12ee4:spamd1:a0:ee";
    let (_, consumed) = decode(whole, 0).unwrap();
    assert_eq!(consumed, whole.len());
    for k in 1..whole.len() {
        assert!(decode(&whole[..k], 0).is_err());
    }
}

#[test]
fn bytes_behind_the_value_do_not_matter() {
    let whole: &[u8] = b"l4:spami7eerest";
    let exact = decode(&whole[..11], 0);
    assert_eq!(decode(whole, 0), exact);
    assert_eq!(exact.unwrap().1, 11);
}

#[test]
fn get_finds_keys_and_takes_the_last_of_equal_ones() {
    let (value, _) = decode(b"d1:ai1e1:bi2e1:ai3ee", 0).unwrap();
    assert_eq!(value.get(b"a"), Some(&BencodeValue::Integer(3)));
    assert_eq!(value.get(b"b"), Some(&BencodeValue::Integer(2)));
    assert_eq!(value.get(b"c"), None);
    assert_eq!(BencodeValue::Integer(1).get(b"a"), None);
}

#[test]
fn plain_encodings_decode_to_their_values() {
    let value = BencodeValue::Dictionary(vec![
        (b"n".to_vec(), BencodeValue::Integer(-120)),
        (b"list".to_vec(), BencodeValue::List(vec![bytes(""), BencodeValue::Integer(0)])),
        (b"d".to_vec(), BencodeValue::Dictionary(vec![])),
    ]);
    let encoding: &[u8] = b"d1:ni-120e4:listl0:i0ee1:ddee";
    assert_eq!(decode(encoding, 0), Ok((value, encoding.len())));
}
