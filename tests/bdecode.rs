use bencoding::{BDecoder, BEncodingType, DecodingError, Dictionary, ToByteString};

#[test]
fn bdecode_expect_char() {
    let mut parser = BDecoder::new(b"abc");

    assert_eq!(parser.expect_char(b'a'), Ok(b'a'));
    assert_eq!(parser.cursor(), 1);
    assert_eq!(parser.expect_char(b'a'), Err(DecodingError::MissingIdentifier('a')));
    assert_eq!(parser.cursor(), 1);
}

#[test]
fn bdecode_test_parse_integer() {
    let parse_int = |inp: &str| {
        let mut decoder = BDecoder::new(inp.as_bytes());
        (decoder.parse_int(), decoder.cursor())
    };

    assert_eq!((Ok(123), 5), parse_int("i123e"));
    assert_eq!((Ok(-123), 6), parse_int("i-123e"));
    assert_eq!((Err(DecodingError::NegativeZero), 2), parse_int("i-0e"));
    assert_eq!((Err(DecodingError::MissingIdentifier('i')), 0), parse_int("abc"));
    assert_eq!((Err(DecodingError::NotANumber), 1), parse_int("iabc"));
    assert_eq!((Err(DecodingError::NotANumber), 2), parse_int("i-abc"));
    assert_eq!((Err(DecodingError::MissingIdentifier('e')), 3), parse_int("i23abc"));
    assert_eq!((Err(DecodingError::EndOfFile), 3), parse_int("i23"));
}

#[test]
fn bdecode_test_parse_string() {
    let parse_string = |inp: &str| {
        let mut decoder = BDecoder::new(inp.as_bytes());
        (decoder.parse_str(), decoder.cursor())
    };

    assert_eq!((Ok("abc".to_byte_string()), 5), parse_string("3:abc"));
    assert_eq!((Ok("".to_byte_string()), 2), parse_string("0:"));
    assert_eq!((Err(DecodingError::StringWithoutLength), 0), parse_string("abc"));
    assert_eq!((Err(DecodingError::NegativeStringLen), 2), parse_string("-3:abc"));
    assert_eq!((Err(DecodingError::MissingIdentifier(':')), 1), parse_string("3abc"));
    assert_eq!((Err(DecodingError::EndOfFile), 4), parse_string("3:ab"));
}

#[test]
fn bdecode_test_parse_list() {
    let parse_list = |inp: &str| {
        let mut decoder = BDecoder::new(inp.as_bytes());
        (decoder.parse_list(), decoder.cursor())
    };

    assert_eq!((Ok(vec![]), 2), parse_list("le"));
    assert_eq!((Ok(vec![BEncodingType::Integer(123)]), 7), parse_list("li123ee"));
    assert_eq!((Ok(vec![BEncodingType::String("abc".to_byte_string())]), 7), parse_list("l3:abce"));
    assert_eq!((Ok(vec![
        BEncodingType::String("abc".to_byte_string()),
        BEncodingType::String("defg".to_byte_string())]
    ), 13), parse_list("l3:abc4:defge"));
    assert_eq!((Ok(vec![BEncodingType::List(vec![])]), 4), parse_list("llee"));
    assert_eq!((Ok(vec![
        BEncodingType::List(vec![BEncodingType::List(vec![])]),
        BEncodingType::List(vec![BEncodingType::List(vec![])]),
    ]), 10), parse_list("llleelleee"));
    assert_eq!((Err(DecodingError::MissingIdentifier('l')), 0), parse_list("abc"));
    assert_eq!((Err(DecodingError::EndOfFile), 6), parse_list("l3:abc"));
}

#[test]
fn bdecode_test_parse_dictionary() {
    let parse_dictionary = |inp: &str| {
        let mut decoder = BDecoder::new(inp.as_bytes());
        (decoder.parse_dict(), decoder.cursor())
    };

    assert_eq!((Ok(Dictionary::new()), 2), parse_dictionary("de"));

    let mut dct = Dictionary::new();
    dct.insert("a".to_byte_string(), BEncodingType::Integer(123));
    assert_eq!((Ok(dct), 10), parse_dictionary("d1:ai123ee"));

    let mut dct = Dictionary::new();
    dct.insert("a".to_byte_string(), BEncodingType::List(vec![BEncodingType::String("hey".to_byte_string())]));
    dct.insert("b".to_byte_string(), BEncodingType::List(vec![]));
    assert_eq!((Ok(dct), 17), parse_dictionary("d1:al3:heye1:blee"));

    let mut dct = Dictionary::new();
    let mut inner_dct = Dictionary::new();
    inner_dct.insert("a".to_byte_string(), BEncodingType::Integer(345));
    inner_dct.insert("b".to_byte_string(), BEncodingType::String("wow".to_byte_string()));
    dct.insert("inner".to_byte_string(), BEncodingType::Dictionary(inner_dct));
    dct.insert("inner2".to_byte_string(), BEncodingType::Dictionary(Dictionary::new()));
    assert_eq!((Ok(dct), 37), parse_dictionary("d5:innerd1:ai345e1:b3:wowe6:inner2dee"));

    assert_eq!((Err(DecodingError::MissingIdentifier('d')), 0), parse_dictionary("abc"));
    assert_eq!((Err(DecodingError::KeyWithoutValue("item".to_byte_string())), 7), parse_dictionary("d4:iteme"));
    assert_eq!((Err(DecodingError::EndOfFile), 8), parse_dictionary("d1:a2:bc"));
}
