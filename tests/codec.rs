use bencoding::bencode::{encode_digits, encode_num};
use bencoding::{decode, encode, BDecoder, BEncodingType, ByteString, DecodingError, Dictionary, ToByteString};

fn bytes(s: &str) -> BEncodingType {
    BEncodingType::String(s.to_byte_string())
}

fn decode_with_cursor(inp: &[u8]) -> (Result<BEncodingType, DecodingError>, usize) {
    let mut decoder = BDecoder::new(inp);
    let r = decoder.decode();
    (r, decoder.cursor())
}

fn sample_value() -> BEncodingType {
    let mut inner = Dictionary::new();
    inner.insert("z".to_byte_string(), BEncodingType::Integer(i64::MIN));
    inner.insert("a".to_byte_string(), BEncodingType::List(vec![bytes(""), BEncodingType::Integer(0)]));
    let mut outer = Dictionary::new();
    outer.insert("key".to_byte_string(), BEncodingType::Dictionary(inner));
    outer.insert(ByteString(vec![0, 255, b'e']), BEncodingType::Integer(i64::MAX));
    outer.insert("".to_byte_string(), BEncodingType::List(vec![]));
    BEncodingType::List(vec![BEncodingType::Dictionary(outer), bytes("i1e"), BEncodingType::Integer(-7)])
}

#[test]
fn round_trip_of_a_nested_value() {
    let encoded = encode(sample_value());
    assert_eq!(decode(&encoded), Ok(sample_value()));
    let (r, cursor) = decode_with_cursor(&encoded);
    assert_eq!(r, Ok(sample_value()));
    assert_eq!(cursor, encoded.len());
}

#[test]
fn round_trip_of_integer_extremes() {
    for n in [0i64, 1, -1, 9, 10, -10, i64::MAX, i64::MIN, i64::MIN + 1] {
        let encoded = encode(BEncodingType::Integer(n));
        assert_eq!(decode(&encoded), Ok(BEncodingType::Integer(n)));
    }
    assert_eq!(encode(BEncodingType::Integer(i64::MIN)), b"i-9223372036854775808e".to_vec());
}

#[test]
fn repeated_failure_is_identical() {
    let bad = b"d3:keyi12";
    let first = decode(bad);
    let second = decode(bad);
    assert_eq!(first, Err(DecodingError::KeyWithoutValue("key".to_byte_string())));
    assert_eq!(first, second);
    assert_eq!(decode(b"i5e"), Ok(BEncodingType::Integer(5)));
    assert_eq!(decode(bad), first);
}

#[test]
fn cursor_stops_after_the_production() {
    assert_eq!(decode_with_cursor(b"i123e"), (Ok(BEncodingType::Integer(123)), 5));
    assert_eq!(decode_with_cursor(b"i123eXYZ"), (Ok(BEncodingType::Integer(123)), 5));
    assert_eq!(decode_with_cursor(b"3:abcdef"), (Ok(bytes("abc")), 5));
    assert_eq!(decode_with_cursor(b"li1eei2e"), (Ok(BEncodingType::List(vec![BEncodingType::Integer(1)])), 5));
}

#[test]
fn cursor_on_failure() {
    assert_eq!(decode_with_cursor(b"i-0e"), (Err(DecodingError::NegativeZero), 2));
    assert_eq!(decode_with_cursor(b"3:ab"), (Err(DecodingError::EndOfFile), 4));
    assert_eq!(decode_with_cursor(b""), (Err(DecodingError::EndOfFile), 0));
    assert_eq!(decode_with_cursor(b"99:ab"), (Err(DecodingError::EndOfFile), 5));
}

#[test]
fn boundary_cases() {
    assert_eq!(decode_with_cursor(b"0:"), (Ok(bytes("")), 2));
    assert_eq!(decode_with_cursor(b"de"), (Ok(BEncodingType::Dictionary(Dictionary::new())), 2));
    assert_eq!(decode_with_cursor(b"le"), (Ok(BEncodingType::List(vec![])), 2));
}

#[test]
fn nesting_follows_brackets() {
    let empty = || BEncodingType::List(vec![]);
    let wrap = |v: BEncodingType| BEncodingType::List(vec![v]);
    assert_eq!(
        decode_with_cursor(b"llleelleee"),
        (Ok(BEncodingType::List(vec![wrap(empty()), wrap(empty())])), 10)
    );
    assert_eq!(
        decode_with_cursor(b"lllleelleeee"),
        (Ok(wrap(BEncodingType::List(vec![wrap(empty()), wrap(empty())]))), 12)
    );
    assert_eq!(decode_with_cursor(b"lllleelleee"), (Err(DecodingError::EndOfFile), 11));
    assert_eq!(decode(b"llllllllllleeeeeeeeeee"), Ok((0..10).fold(empty(), |v, _| wrap(v))));
}

#[test]
fn key_order_survives_a_round_trip() {
    let inp = b"d5:innerd1:ai345e1:b3:wowe6:inner2dee";
    let decoded = decode(inp).unwrap();
    assert_eq!(encode(decoded), inp.to_vec());
    let unsorted = b"d1:zi1e1:ai2e1:mi3ee";
    assert_eq!(encode(decode(unsorted).unwrap()), unsorted.to_vec());
}

#[test]
fn failing_value_names_its_key() {
    assert_eq!(decode(b"d4:iteme"), Err(DecodingError::KeyWithoutValue("item".to_byte_string())));
    assert_eq!(decode_with_cursor(b"d4:iteme").1, 7);
}

#[test]
fn duplicate_key_keeps_the_last_value_and_moves_it_last() {
    let decoded = decode(b"d1:ai1e1:bi2e1:ai3ee").unwrap();
    let mut expected = Dictionary::new();
    expected.insert("b".to_byte_string(), BEncodingType::Integer(2));
    expected.insert("a".to_byte_string(), BEncodingType::Integer(3));
    assert_eq!(decoded, BEncodingType::Dictionary(expected));
    assert_eq!(encode(decoded), b"d1:bi2e1:ai3ee".to_vec());
}

#[test]
fn leading_zero_ends_an_integer_only() {
    assert_eq!(decode_with_cursor(b"i0e"), (Ok(BEncodingType::Integer(0)), 3));
    assert_eq!(decode_with_cursor(b"i03e"), (Err(DecodingError::MissingIdentifier('e')), 2));
    assert_eq!(decode_with_cursor(b"i00e"), (Err(DecodingError::MissingIdentifier('e')), 2));
    assert_eq!(decode_with_cursor(b"i-03e"), (Err(DecodingError::NegativeZero), 2));
    assert_eq!(decode_with_cursor(b"i10e"), (Ok(BEncodingType::Integer(10)), 4));
    assert_eq!(decode_with_cursor(b"01:a"), (Ok(bytes("a")), 4));
    assert_eq!(decode_with_cursor(b"03:abc"), (Ok(bytes("abc")), 6));
    assert_eq!(decode_with_cursor(b"03:ab"), (Err(DecodingError::EndOfFile), 5));
    assert_eq!(decode_with_cursor(b"00:"), (Ok(bytes("")), 3));
    let mut decoder = BDecoder::new(b"03");
    assert_eq!((decoder.read_num(), decoder.cursor()), (Ok(3), 2));
}

#[test]
fn digits_wrap_in_64_bits() {
    assert_eq!(decode(b"i9223372036854775807e"), Ok(BEncodingType::Integer(i64::MAX)));
    assert_eq!(decode(b"i9223372036854775808e"), Ok(BEncodingType::Integer(i64::MIN)));
    assert_eq!(decode(b"i-9223372036854775808e"), Ok(BEncodingType::Integer(i64::MIN)));
    assert_eq!(decode(b"i18446744073709551616e"), Ok(BEncodingType::Integer(0)));
    assert_eq!(decode(b"i18446744073709551617e"), Ok(BEncodingType::Integer(1)));
}

#[test]
fn each_error_kind() {
    assert_eq!(decode(b"x"), Err(DecodingError::StringWithoutLength));
    assert_eq!(decode(b"-"), Err(DecodingError::StringWithoutLength));
    assert_eq!(decode(b"-2:ab"), Err(DecodingError::NegativeStringLen));
    assert_eq!(decode(b"i-e"), Err(DecodingError::NotANumber));
    assert_eq!(decode(b"i-"), Err(DecodingError::EndOfFile));
    assert_eq!(decode(b"i-0e"), Err(DecodingError::NegativeZero));
    assert_eq!(decode(b"2;ab"), Err(DecodingError::MissingIdentifier(':')));
    assert_eq!(decode(b"i12"), Err(DecodingError::EndOfFile));
    assert_eq!(decode(b"di1ei2ee"), Err(DecodingError::StringWithoutLength));
    assert_eq!(decode(b"d1:a"), Err(DecodingError::KeyWithoutValue("a".to_byte_string())));
    assert_eq!(decode(b"l"), Err(DecodingError::EndOfFile));
}

#[test]
fn keys_are_byte_strings_only() {
    assert_eq!(decode(b"dli1ee1:ae"), Err(DecodingError::StringWithoutLength));
    assert_eq!(decode(b"dd1:ai1eee"), Err(DecodingError::StringWithoutLength));
}

#[test]
fn byte_strings_are_copied_verbatim() {
    let inp = [b'3', b':', 0u8, 0xff, b'e'];
    assert_eq!(decode(&inp), Ok(BEncodingType::String(ByteString(vec![0, 0xff, b'e']))));
}

#[test]
fn number_text() {
    let mut v = Vec::new();
    encode_num(-9050, &mut v);
    encode_digits(0, &mut v);
    encode_digits(18446744073709551615, &mut v);
    assert_eq!(v, b"-9050018446744073709551615".to_vec());
}

#[test]
fn byte_conversions() {
    let raw: &[u8] = &[1, 2, 3];
    assert_eq!(raw.to_byte_string(), ByteString(vec![1, 2, 3]));
    assert_eq!("hé".to_byte_string(), ByteString(vec![b'h', 0xc3, 0xa9]));
}

#[test]
fn lossy_rendering_replaces_invalid_bytes() {
    assert_eq!(ByteString(b"abc".to_vec()).to_lossy_string(), "abc");
    assert_eq!(ByteString(vec![b'a', 0xff, b'b']).to_lossy_string(), "a\u{fffd}b");
}

#[test]
fn error_messages() {
    assert_eq!(DecodingError::MissingIdentifier(':').message(), "Expected identifier ':'");
    assert_eq!(
        DecodingError::KeyWithoutValue(ByteString(vec![b'k', 0xff])).message(),
        "Dictionary key 'k\u{fffd}' without value"
    );
    assert_eq!(DecodingError::StringWithoutLength.message(), "Expected string length");
    assert_eq!(DecodingError::NotANumber.message(), "Expected a number but ");
    assert_eq!(DecodingError::EndOfFile.message(), "Unexpected end of file");
    assert_eq!(DecodingError::NegativeZero.message(), "Negative zero is not allowed. Use 0 instead");
    assert_eq!(DecodingError::NegativeStringLen.message(), "Negative string length is not allowed");
}

#[test]
fn dictionary_entries_follow_insertion_order() {
    let mut d = Dictionary::new();
    d.insert("b".to_byte_string(), BEncodingType::Integer(1));
    d.insert("a".to_byte_string(), BEncodingType::Integer(2));
    d.insert("b".to_byte_string(), BEncodingType::Integer(3));
    let entries = d.entries();
    assert_eq!(entries.len(), 2);
    assert_eq!(entries[0], (&"a".to_byte_string(), &BEncodingType::Integer(2)));
    assert_eq!(entries[1], (&"b".to_byte_string(), &BEncodingType::Integer(3)));
}
