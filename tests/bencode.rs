use bittorrent::bencode::{
    bdecode, bencode, BencodableByteString, Bencodable, BencodeDict, BencodeParseError,
    BencodeParseErrorType,
};

#[test]
fn bencode_it_encodes_simple_dictionaries() {
    let mut examples = BencodeDict::new();
    examples.insert(
        BencodableByteString::from("Gedalia"),
        Bencodable::from("Gedalia"),
    );
    examples.insert(BencodableByteString::from("a"), Bencodable::Integer(1));
    assert_eq!(
        bencode(&Bencodable::Dictionary(examples)).unwrap(),
        "d7:Gedalia7:Gedalia1:ai1ee".as_bytes()
    );
}

#[test]
fn bencode_it_encodes_integers() {
    let result = bencode(&Bencodable::Integer(-311)).unwrap();
    let as_slice = result.as_slice();
    assert_eq!(as_slice, "i-311e".as_bytes());
}

#[test]
fn bencode_it_encodes_byte_strings() {
    assert_eq!(
        bencode(&Bencodable::from("Gedalia")).unwrap(),
        "7:Gedalia".as_bytes()
    );
}

#[test]
fn bencode_it_encodes_long_byte_strings() {
    assert_eq!(
        bencode(&Bencodable::from("GedaliaGedalia")).unwrap(),
        "14:GedaliaGedalia".as_bytes()
    );
}

#[test]
fn bencode_it_encodes_lists() {
    assert_eq!(
        "l4:spam4:eggsi-341ee",
        std::str::from_utf8(
            &bencode(&Bencodable::List(vec!(
                Bencodable::from("spam"),
                Bencodable::from("eggs"),
                Bencodable::Integer(-341)
            )))
            .unwrap()
        )
        .unwrap()
    );
}

#[test]
fn bencode_it_encodes_more_complex_dictionaries() {
    let mut examples = BencodeDict::new();
    examples.insert(
        BencodableByteString::from("publisher"),
        Bencodable::from("bob"),
    );
    examples.insert(
        BencodableByteString::from("publisher-webpage"),
        Bencodable::from("www.example.com"),
    );
    examples.insert(
        BencodableByteString::from("publisher.location"),
        Bencodable::from("home"),
    );
    assert_eq!(
        "d9:publisher3:bob17:publisher-webpage15:www.example.com18:publisher.location4:homee",
        std::str::from_utf8(&bencode(&Bencodable::Dictionary(examples)).unwrap()).unwrap()
    );
}

#[test]
fn bencode_it_decodes_byte_strings() {
    assert_eq!(bdecode(b"4:spam").unwrap(), Bencodable::from("spam"));
}

#[test]
fn bencode_it_decodes_long_byte_strings() {
    assert_eq!(
        bdecode(b"14:GedaliaGedalia").unwrap(),
        Bencodable::from("GedaliaGedalia")
    );
}

#[test]
fn bencode_it_decodes_lists() {
    assert_eq!(bdecode(b"i-3e").unwrap(), Bencodable::Integer(-3));
}

#[test]
fn bencode_it_decodes_integers() {
    assert_eq!(bdecode(b"i-341e").unwrap(), Bencodable::Integer(-341));
}

#[test]
fn bencode_it_decodes_small_integers() {
    assert_eq!(bdecode(b"i3e").unwrap(), Bencodable::Integer(3));
}

#[test]
fn bencode_it_decodes_heterogenous_lists() {
    assert_eq!(
        bdecode(b"l4:spam4:eggsi-341ee").unwrap(),
        Bencodable::List(vec!(
            Bencodable::from("spam"),
            Bencodable::from("eggs"),
            Bencodable::Integer(-341)
        ))
    );
}

#[test]
fn bencode_it_decodes_dictionaries() {
    let mut examples = BencodeDict::new();
    examples.insert(
        BencodableByteString::from("Gedalia"),
        Bencodable::from("Gedalia"),
    );
    examples.insert(BencodableByteString::from("a"), Bencodable::Integer(1));
    assert_eq!(
        bdecode(b"d7:Gedalia7:Gedalia1:ai1ee").unwrap(),
        Bencodable::Dictionary(examples)
    );
}

#[test]
fn bencode_it_decodes_dictionaries_with_embedded_list_values() {
    let mut examples = BencodeDict::new();
    examples.insert(
        BencodableByteString::from("spam"),
        Bencodable::List(vec![Bencodable::from("a"), Bencodable::from("b")]),
    );
    assert_eq!(
        bdecode(b"d4:spaml1:a1:bee").unwrap(),
        Bencodable::Dictionary(examples)
    );
}

#[test]
fn bencode_it_decodes_complex_dictionaries() {
    let mut examples = BencodeDict::new();
    examples.insert(
        BencodableByteString::from("publisher"),
        Bencodable::from("bob"),
    );
    examples.insert(
        BencodableByteString::from("publisher-webpage"),
        Bencodable::from("www.example.com"),
    );
    examples.insert(
        BencodableByteString::from("publisher.location"),
        Bencodable::from("home"),
    );
    assert_eq!(
        bdecode(b"d9:publisher3:bob17:publisher-webpage15:www.example.com18:publisher.location4:homee").unwrap(),
        Bencodable::Dictionary(examples)
    );
}

#[test]
fn bencode_it_decodes_empty_dictionaries() {
    assert_eq!(
        bdecode(b"de").unwrap(),
        Bencodable::Dictionary(BencodeDict::new())
    );
}

#[test]
fn bencode_it_decodes_empty_lists() {
    assert_eq!(bdecode(b"le").unwrap(), Bencodable::List(Vec::new()));
}

#[test]
fn bencode_it_decodes_lists_inside_lists_inside_maps() {
    let mut examples = BencodeDict::new();
    examples.insert(
        BencodableByteString::from("announce"),
        Bencodable::from("udp://tracker.leechers-paradise.org:6969"),
    );
    examples.insert(
        BencodableByteString::from("announce-list"),
        Bencodable::List(vec![
            Bencodable::List(vec![Bencodable::from(
                "udp://tracker.leechers-paradise.org:6969",
            )]),
            Bencodable::List(vec![Bencodable::from("udp://tracker.coppersurfer.tk:6969")]),
        ]),
    );

    let example_string = vec![
        "d",
        "8:announce",
        "40:udp://tracker.leechers-paradise.org:6969",
        "13:announce-list",
        "l",
        "l",
        "40:udp://tracker.leechers-paradise.org:6969",
        "e",
        "l",
        "34:udp://tracker.coppersurfer.tk:6969",
        "e",
        "e",
        "e",
    ]
    .join("");

    let t = bdecode(example_string.as_bytes());
    assert_eq!(t.unwrap(), Bencodable::Dictionary(examples));
}

#[test]
fn it_decodes_empty_bytes() {
    assert_eq!(
        bdecode(b""),
        Err(BencodeParseError::from((
            BencodeParseErrorType::ParseValue,
            0 as usize,
            "".as_bytes()
        )))
    );
}

#[test]
fn it_decodes_incomplete_bencode() {
    assert_eq!(
        bdecode(b"d9:publisher3:bob17:publisher-webpage1:www.example.com18:publisher.location4:homee"),
        Err(BencodeParseError::from((BencodeParseErrorType::ParseInitiate, 40 as usize, "d9:publisher3:bob17:publisher-webpage1:www.example.com18:publisher.location4:homee".as_bytes())))
    );
}

#[test]
fn it_decodes_incomplete_dictionaries() {
    assert_eq!(
        bdecode(b"d"),
        Err(BencodeParseError::from((
            BencodeParseErrorType::ParseDictionary,
            1 as usize,
            "d".as_bytes()
        )))
    );
}

#[test]
fn it_decodes_incomplete_lists() {
    assert_eq!(
        bdecode(b"li3e"),
        Err(BencodeParseError::from((
            BencodeParseErrorType::ParseList,
            4 as usize,
            "li3e".as_bytes()
        )))
    );
}

#[test]
fn it_decodes_incomplete_integers() {
    assert_eq!(
        bdecode(b"i311111111111d"),
        Err(BencodeParseError::from((
            BencodeParseErrorType::ParseInteger,
            14 as usize,
            "i311111111111d".as_bytes()
        )))
    );
}

#[test]
fn it_decodes_incomplete_byte_strings() {
    assert_eq!(
        bdecode(b"2:a"),
        Err(BencodeParseError::from((
            BencodeParseErrorType::ParseByteString,
            1 as usize,
            "2:a".as_bytes()
        )))
    );
}

#[test]
fn it_decodes_too_long_length_byte_strings() {
    assert_eq!(
        bdecode(b"2:abc"),
        Err(BencodeParseError::from((
            BencodeParseErrorType::ParseEnd,
            4 as usize,
            "2:abc".as_bytes()
        )))
    );
}
