use sum_btc::codec::{
    format_checkpoint, format_u64, parse_u64, parse_usize, read_checkpoint, split_fields,
    ParseError,
};
use sum_btc::model::{IndexedTxid, Utxo};

#[test]
fn numbers_in_decimal() {
    assert_eq!(format_u64(0), "0");
    assert_eq!(format_u64(7), "7");
    assert_eq!(format_u64(10), "10");
    assert_eq!(format_u64(844566), "844566");
    assert_eq!(format_u64(u64::MAX), "18446744073709551615");
}

#[test]
fn numbers_read_back() {
    assert_eq!(parse_u64("0"), Some(0));
    assert_eq!(parse_u64("007"), Some(7));
    assert_eq!(parse_u64("+42"), Some(42));
    assert_eq!(parse_u64("18446744073709551615"), Some(u64::MAX));
    assert_eq!(parse_u64("18446744073709551616"), None);
    assert_eq!(parse_u64("99999999999999999999999"), None);
    assert_eq!(parse_u64(""), None);
    assert_eq!(parse_u64("+"), None);
    assert_eq!(parse_u64("-1"), None);
    assert_eq!(parse_u64("++1"), None);
    assert_eq!(parse_u64("1+"), None);
    assert_eq!(parse_u64("12a"), None);
    assert_eq!(parse_u64(" 1"), None);
    assert_eq!(parse_u64("\u{664}"), None);
    assert_eq!(parse_usize("31"), Some(31));
    assert_eq!(parse_usize("x"), None);
    for n in [0u64, 1, 9, 10, 99, 100, 12345, u64::MAX - 1, u64::MAX] {
        assert_eq!(parse_u64(&format_u64(n)), Some(n));
        assert_eq!(parse_u64(&format_u64(n)), format_u64(n).parse::<u64>().ok());
    }
}

#[test]
fn fields_between_colons() {
    assert_eq!(split_fields(""), vec![""]);
    assert_eq!(split_fields("abc"), vec!["abc"]);
    assert_eq!(split_fields("a:b"), vec!["a", "b"]);
    assert_eq!(split_fields(":"), vec!["", ""]);
    assert_eq!(split_fields("1:\u{e9}t\u{e9}:3"), vec!["1", "\u{e9}t\u{e9}", "3"]);
    assert_eq!(split_fields("a::b:"), vec!["a", "", "b", ""]);
}

#[test]
fn key_text_round_trip() {
    let k = IndexedTxid { index: 3, tx_id: "f4184fc5".to_string() };
    assert_eq!(k.to_string(), "3:f4184fc5");
    let back = IndexedTxid::from_str("3:f4184fc5").unwrap();
    assert_eq!(back.index, 3);
    assert_eq!(back.tx_id, "f4184fc5");
    assert!(back.same(&k));
    let zero = IndexedTxid::from_str("0:").unwrap();
    assert_eq!((zero.index, zero.tx_id.as_str()), (0, ""));
}

#[test]
fn key_text_refused() {
    assert_eq!(IndexedTxid::from_str("3").err(), Some(ParseError::FieldCount));
    assert_eq!(IndexedTxid::from_str("").err(), Some(ParseError::FieldCount));
    assert_eq!(IndexedTxid::from_str("3:ab:cd").err(), Some(ParseError::FieldCount));
    assert_eq!(IndexedTxid::from_str("x:ab").err(), Some(ParseError::BadIndex));
    assert_eq!(IndexedTxid::from_str(":ab").err(), Some(ParseError::BadIndex));
    assert_eq!(
        IndexedTxid::from_str("99999999999999999999999:ab").err(),
        Some(ParseError::BadIndex)
    );
}

#[test]
fn utxo_text_round_trip() {
    let u = Utxo { index: 1, address: "1A1zP1eP5QGefi2DMPTfTL5SLmv7DivfNa".to_string(), value: 5000000000 };
    assert_eq!(u.to_string(), "1:1A1zP1eP5QGefi2DMPTfTL5SLmv7DivfNa:5000000000");
    let back = Utxo::from_str(&u.to_string()).unwrap();
    assert_eq!(back.index, 1);
    assert_eq!(back.address, "1A1zP1eP5QGefi2DMPTfTL5SLmv7DivfNa");
    assert_eq!(back.value, 5000000000);
    let k = back.key(&"tx".to_string());
    assert_eq!(k.to_string(), "1:tx");
    let d = back.duplicate();
    assert_eq!(d.to_string(), u.to_string());
}

#[test]
fn utxo_text_refused() {
    assert_eq!(Utxo::from_str("1:addr").err(), Some(ParseError::FieldCount));
    assert_eq!(Utxo::from_str("1:a:b:5").err(), Some(ParseError::FieldCount));
    assert_eq!(Utxo::from_str("one:addr:5").err(), Some(ParseError::BadIndex));
    assert_eq!(Utxo::from_str("1:addr:five").err(), Some(ParseError::BadValue));
    assert_eq!(Utxo::from_str("1:addr:").err(), Some(ParseError::BadValue));
    assert_eq!(
        Utxo::from_str("1:addr:18446744073709551616").err(),
        Some(ParseError::BadValue)
    );
    // the index is looked at before the value
    assert_eq!(Utxo::from_str("x:addr:y").err(), Some(ParseError::BadIndex));
}

#[test]
fn utxo_from_stored_bytes() {
    let u = Utxo::try_from(b"2:addr:77".to_vec()).unwrap();
    assert_eq!((u.index, u.address.as_str(), u.value), (2, "addr", 77));
    assert_eq!(Utxo::try_from(vec![0x31, 0x3a, 0xff, 0x3a, 0x35]).err(), Some(ParseError::BadEncoding));
    assert_eq!(Utxo::try_from(b"2:addr".to_vec()).err(), Some(ParseError::FieldCount));
    let e = Utxo::try_from("0:\u{e9}:1".as_bytes().to_vec()).unwrap();
    assert_eq!(e.address, "\u{e9}");
}

#[test]
fn checkpoint_text() {
    assert_eq!(format_checkpoint(2), "2");
    assert_eq!(read_checkpoint(None), Ok(0));
    assert_eq!(read_checkpoint(Some(b"2".to_vec())), Ok(2));
    assert_eq!(read_checkpoint(Some(format_checkpoint(844566).into_bytes())), Ok(844566));
    assert_eq!(read_checkpoint(Some(b"".to_vec())), Err(ParseError::BadValue));
    assert_eq!(read_checkpoint(Some(b"2 ".to_vec())), Err(ParseError::BadValue));
    assert_eq!(read_checkpoint(Some(vec![0xc3])), Err(ParseError::BadEncoding));
}
