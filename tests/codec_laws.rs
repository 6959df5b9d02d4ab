use bittorrent::bencode::{
    bdecode, bencode, BencodableByteString, Bencodable, BencodeDict, BencodeParseErrorType,
};

fn error_of(input: &[u8]) -> (BencodeParseErrorType, usize) {
    let e = bdecode(input).unwrap_err();
    assert_eq!(e.original, input.to_vec());
    (e.error_type, e.index)
}

#[test]
fn decoding_then_encoding_gives_the_input_back() {
    let inputs: Vec<&[u8]> = vec![
        b"d7:Gedalia7:Gedalia1:ai1ee",
        b"d8:announce40:udp://tracker.leechers-paradise.org:696913:announce-listll40:udp://tracker.leechers-paradise.org:6969el34:udp://tracker.coppersurfer.tk:6969eee",
        b"i0e",
        b"i-2147483648e",
        b"i2147483647e",
        b"0:",
        b"le",
        b"de",
        b"lli1eei2ed1:xleee",
    ];
    for input in inputs {
        let value = bdecode(input).unwrap();
        assert_eq!(bencode(&value).unwrap(), input.to_vec());
    }
}

#[test]
fn simple_dictionary_scenario() {
    let value = bdecode(b"d7:Gedalia7:Gedalia1:ai1ee").unwrap();
    let mut expected = BencodeDict::new();
    expected.insert(BencodableByteString::from("Gedalia"), Bencodable::from("Gedalia"));
    expected.insert(BencodableByteString::from("a"), Bencodable::Integer(1));
    assert_eq!(value, Bencodable::Dictionary(expected));
    assert_eq!(bencode(&value).unwrap(), b"d7:Gedalia7:Gedalia1:ai1ee".to_vec());
}

#[test]
fn dictionary_keys_are_encoded_in_ascending_byte_order() {
    let mut d = BencodeDict::new();
    d.insert(BencodableByteString::from("zeta"), Bencodable::Integer(1));
    d.insert(BencodableByteString::from("alpha"), Bencodable::Integer(2));
    d.insert(BencodableByteString::from("al"), Bencodable::Integer(3));
    d.insert(BencodableByteString::from("Zulu"), Bencodable::Integer(4));
    assert_eq!(d.len(), 4);
    assert_eq!(
        bencode(&Bencodable::Dictionary(d)).unwrap(),
        b"d4:Zului4e2:ali3e5:alphai2e4:zetai1ee".to_vec()
    );
}

#[test]
fn inserting_an_existing_key_replaces_its_value() {
    let mut d = BencodeDict::new();
    d.insert(BencodableByteString::from("k"), Bencodable::Integer(1));
    d.insert(BencodableByteString::from("k"), Bencodable::Integer(2));
    assert_eq!(d.len(), 1);
    assert_eq!(d.get(b"k"), Some(&Bencodable::Integer(2)));
    assert_eq!(d.get(b"x"), None);
}

#[test]
fn removing_a_key_takes_its_value_out() {
    let mut d = BencodeDict::new();
    d.insert(BencodableByteString::from("a"), Bencodable::Integer(1));
    d.insert(BencodableByteString::from("b"), Bencodable::Integer(2));
    assert_eq!(d.remove(b"a"), Some(Bencodable::Integer(1)));
    assert_eq!(d.remove(b"a"), None);
    assert_eq!(bencode(&Bencodable::Dictionary(d)).unwrap(), b"d1:bi2ee".to_vec());
}

#[test]
fn duplicate_copies_nested_values() {
    let value = bdecode(b"d1:ald1:bi-7eee1:c3:xyze").unwrap();
    assert_eq!(value.duplicate(), value);
}

#[test]
fn non_canonical_integers_are_refused() {
    assert_eq!(error_of(b"i03e"), (BencodeParseErrorType::ParseInteger, 3));
    assert_eq!(error_of(b"i-0e"), (BencodeParseErrorType::ParseInteger, 3));
    assert_eq!(error_of(b"i+3e"), (BencodeParseErrorType::ParseInteger, 3));
    assert_eq!(error_of(b"ie"), (BencodeParseErrorType::ParseInteger, 1));
    assert_eq!(error_of(b"i2147483648e"), (BencodeParseErrorType::ParseInteger, 11));
    assert_eq!(error_of(b"i-2147483649e"), (BencodeParseErrorType::ParseInteger, 12));
}

#[test]
fn byte_string_length_errors() {
    assert_eq!(error_of(b"03:abc"), (BencodeParseErrorType::ParseByteStringLength, 2));
    assert_eq!(error_of(b"3x:abc"), (BencodeParseErrorType::ParseByteStringLength, 2));
    assert_eq!(error_of(b"12"), (BencodeParseErrorType::ParseByteStringLength, 2));
    assert_eq!(
        error_of(b"99999999999999999999999:a"),
        (BencodeParseErrorType::ParseByteStringLength, 23)
    );
    assert_eq!(error_of(b"5:abc"), (BencodeParseErrorType::ParseByteString, 1));
}

#[test]
fn dictionary_key_errors() {
    assert_eq!(error_of(b"d1:bi1e1:ai2ee"), (BencodeParseErrorType::ParseDictionary, 7));
    assert_eq!(error_of(b"d1:ai1e1:ai2ee"), (BencodeParseErrorType::ParseDictionary, 7));
    assert_eq!(error_of(b"di1ei2ee"), (BencodeParseErrorType::ParseDictionary, 1));
    assert_eq!(error_of(b"d1:ai1e"), (BencodeParseErrorType::ParseDictionary, 7));
}

#[test]
fn value_start_and_trailing_errors() {
    assert_eq!(error_of(b"x"), (BencodeParseErrorType::ParseInitiate, 0));
    assert_eq!(error_of(b"i1ei2e"), (BencodeParseErrorType::ParseEnd, 3));
    assert_eq!(error_of(b"l"), (BencodeParseErrorType::ParseList, 1));
}

#[test]
fn byte_strings_as_text() {
    let s = BencodableByteString::from("héllo");
    assert_eq!(s.as_string().unwrap(), "héllo");
    assert_eq!(s.as_bytes(), "héllo".as_bytes());
    let bad = BencodableByteString::from(&[0xffu8, 0xfe][..]);
    assert!(bad.as_string().is_err());
}
