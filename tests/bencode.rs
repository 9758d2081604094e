use bencoding::bencode::{encode_bytestring, encode_dict, encode_int, encode_list};
use bencoding::{BEncodingType, ByteString, Dictionary};

#[test]
fn encode_int_zero() {
    let mut v = Vec::new();
    encode_int(0, &mut v);
    assert_eq!(b"i0e".to_vec(), v)
}

#[test]
fn encode_int_positive_number() {
    let mut v = Vec::new();
    encode_int(1234, &mut v);
    assert_eq!(b"i1234e".to_vec(), v);

    encode_int(567, &mut v);
    assert_eq!(b"i1234ei567e".to_vec(), v);
}

#[test]
fn encode_int_negative_number() {
    let mut v = Vec::new();
    encode_int(-123, &mut v);
    assert_eq!(b"i-123e".to_vec(), v);

    encode_int(-45, &mut v);
    assert_eq!(b"i-123ei-45e".to_vec(), v);

    encode_int(67, &mut v);
    assert_eq!(b"i-123ei-45ei67e".to_vec(), v);
}

#[test]
fn test_encode_bytestring() {
    let mut v = Vec::new();
    encode_bytestring(&ByteString(b"abcd".to_vec()), &mut v);
    assert_eq!(b"4:abcd".to_vec(), v);

    encode_bytestring(&ByteString(b"123".to_vec()), &mut v);
    assert_eq!(b"4:abcd3:123".to_vec(), v);

    encode_bytestring(&ByteString(b"\n\r\t\\/,".to_vec()), &mut v);
    assert_eq!(b"4:abcd3:1236:\n\r\t\\/,".to_vec(), v);
}

#[test]
fn encode_list_empty() {
    let mut v = Vec::new();
    encode_list(&Vec::new(), &mut v);
    assert_eq!(b"le".to_vec(), v);
}

#[test]
fn encode_list_inner() {
    let mut v = Vec::new();
    encode_list(&vec![
        BEncodingType::Integer(345),
        BEncodingType::List(vec![
            BEncodingType::String(ByteString(b"inner".to_vec())),
            BEncodingType::Integer(999),
            BEncodingType::List(vec![
                BEncodingType::Integer(10000)
            ])
        ]),
        BEncodingType::String(ByteString(b"def".to_vec())),
        BEncodingType::List(vec![]),
    ], &mut v);
    assert_eq!(b"li345el5:inneri999eli10000eee3:deflee".to_vec(), v);
}

#[test]
fn encode_dict_empty() {
    let mut v = Vec::new();
    encode_dict(&Dictionary::new(), &mut v);
    assert_eq!(b"de".to_vec(), v);
}

#[test]
fn encode_dict_flat() {
    let mut v: Vec<u8> = Vec::new();
    let mut dict = Dictionary::new();
    dict.insert(ByteString(b"item1".to_vec()), BEncodingType::Integer(123));
    dict.insert(ByteString(b"item2".to_vec()), BEncodingType::String(ByteString(b"value".to_vec())));
    encode_dict(&dict, &mut v);
    assert_eq!(b"d5:item1i123e5:item25:valuee".to_vec(), v);
}

#[test]
fn encode_dict_layered() {
    let mut v: Vec<u8> = Vec::new();
    let mut dict = Dictionary::new();
    dict.insert(ByteString(b"item1".to_vec()), BEncodingType::Integer(123));
    dict.insert(ByteString(b"item2".to_vec()), BEncodingType::String(ByteString(b"value".to_vec())));

    let mut inner_dict = Dictionary::new();
    inner_dict.insert(ByteString(b"inneritem1".to_vec()), BEncodingType::Integer(888));
    let mut innermost_dict = Dictionary::new();
    innermost_dict.insert(ByteString(b"core".to_vec()), BEncodingType::Integer(50000));
    inner_dict.insert(ByteString(b"inneritem2".to_vec()), BEncodingType::Dictionary(innermost_dict));

    dict.insert(ByteString(b"inner".to_vec()), BEncodingType::Dictionary(inner_dict));

    encode_dict(&dict, &mut v);
    assert_eq!(b"d5:item1i123e5:item25:value5:innerd10:inneritem1i888e10:inneritem2d4:corei50000eeee".to_vec(), v);
}
