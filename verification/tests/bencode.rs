//! Parsing and encoding of Bencode.
use bitors::bencode::{Bencode, Error, IntErrorKind, Parser};
use bitors::sorted_map::SortedMap;

#[test]
fn test_parse_integer() {
    assert_eq!(Parser::new(b"i42e").parse().unwrap().as_int().unwrap(), 42);
    assert_eq!(
        Parser::new(b"i-42e").parse().unwrap().as_int().unwrap(),
        -42
    );
    assert_eq!(Parser::new(b"i0e").parse().unwrap().as_int().unwrap(), 0);
}

#[test]
fn test_invalid_integers() {
    // Leading zeros are invalid in Bencode
    assert!(matches!(
        Parser::new(b"i03e").parse(),
        Err(Error::InvalidBencodeInteger(_))
    ));
    // Negative zero is invalid
    assert!(matches!(
        Parser::new(b"i-0e").parse(),
        Err(Error::InvalidBencodeInteger(_))
    ));
    // Missing numbers
    assert!(Parser::new(b"ie").parse().is_err());
    assert!(Parser::new(b"i-e").parse().is_err());
}

#[test]
fn test_parse_bytes() {
    let mut parser = Parser::new(b"4:spam");
    let val = parser.parse().unwrap();
    assert_eq!(val.as_bytes().unwrap(), b"spam");
    assert_eq!(val.as_str().unwrap(), "spam");

    // Empty string
    let mut parser = Parser::new(b"0:");
    let val = parser.parse().unwrap();
    assert_eq!(val.as_bytes().unwrap(), b"");
}

#[test]
fn test_invalid_bytes() {
    // Truncated data
    assert!(matches!(
        Parser::new(b"4:spa").parse(),
        Err(Error::UnexpectedEof)
    ));
    // Missing colon
    assert!(Parser::new(b"4spam").parse().is_err());
}

#[test]
fn test_parse_list() {
    let mut parser = Parser::new(b"li42e4:spame");
    let val = parser.parse().unwrap();
    let list = val.as_list().unwrap();

    assert_eq!(list.len(), 2);
    assert_eq!(list[0].as_int().unwrap(), 42);
    assert_eq!(list[1].as_str().unwrap(), "spam");

    // Empty list
    let mut parser = Parser::new(b"le");
    let val = parser.parse().unwrap();
    assert!(val.as_list().unwrap().is_empty());
}

#[test]
fn test_parse_dict() {
    let mut parser = Parser::new(b"d3:bar4:spam3:fooi42ee");
    let val = parser.parse().unwrap();
    let dict = val.as_dict().unwrap();

    assert_eq!(dict.len(), 2);
    assert_eq!(dict.get(&b"bar"[..]).unwrap().as_str().unwrap(), "spam");
    assert_eq!(dict.get(&b"foo"[..]).unwrap().as_int().unwrap(), 42);

    // Empty dict
    let mut parser = Parser::new(b"de");
    let val = parser.parse().unwrap();
    assert!(val.as_dict().unwrap().is_empty());
}

#[test]
fn test_invalid_dict_keys() {
    // Dictionaries must have string/bytes keys (this uses an integer as a key)
    assert!(matches!(
        Parser::new(b"di42e4:spame").parse(),
        Err(Error::NonStringKey)
    ));
}

#[test]
fn test_type_coercion_errors() {
    let val = Bencode::Int(42);
    assert!(matches!(
        val.as_str(),
        Err(Error::WrongType { expected: "bytes" })
    ));
    assert!(matches!(
        val.as_list(),
        Err(Error::WrongType { expected: "list" })
    ));
}

#[test]
fn test_deeply_nested_structure() {
    // Parses `d1:ad1:bd1:ci42eeee` that is, {"a": {"b": {"c": 42}}}
    let mut parser = Parser::new(b"d1:ad1:bd1:ci42eeee");
    let val = parser.parse().unwrap();

    let a = val.as_dict().unwrap().get(&b"a"[..]).unwrap();
    let b = a.as_dict().unwrap().get(&b"b"[..]).unwrap();
    let c = b.as_dict().unwrap().get(&b"c"[..]).unwrap();

    assert_eq!(c.as_int().unwrap(), 42);
}

#[test]
fn test_depth_limit() {
    let mut parser = Parser::with_max_depth(b"lllleeee", 2);
    assert!(matches!(parser.parse(), Err(Error::DepthLimitExceeded)));
}

#[test]
fn test_unsorted_dict() {
    assert!(matches!(
        Parser::new(b"d4:spam3:foo3:bari42ee").parse(),
        Err(Error::UnsortedDictKeys)
    ));
}

#[test]
fn a_repeated_key_is_unsorted() {
    assert!(matches!(
        Parser::new(b"d1:ai1e1:ai2ee").parse(),
        Err(Error::UnsortedDictKeys)
    ));
}

#[test]
fn an_unexpected_byte_is_named_with_its_position() {
    assert!(matches!(
        Parser::new(b"li1ex").parse(),
        Err(Error::UnexpectedByte(4, b'x'))
    ));
}

#[test]
fn a_numeral_that_is_not_utf8_is_rejected() {
    assert!(matches!(
        Parser::new(b"i\xffe").parse(),
        Err(Error::InvalidUtf8(_))
    ));
}

#[test]
fn numerals_that_cannot_be_read_are_told_apart() {
    assert!(matches!(
        Parser::new(b"ie").parse(),
        Err(Error::InvalidInteger(IntErrorKind::Empty))
    ));
    assert!(matches!(
        Parser::new(b"i4x2e").parse(),
        Err(Error::InvalidInteger(IntErrorKind::InvalidDigit))
    ));
    assert!(matches!(
        Parser::new(b"i9223372036854775808e").parse(),
        Err(Error::InvalidInteger(IntErrorKind::PosOverflow))
    ));
    assert!(matches!(
        Parser::new(b"i-9223372036854775809e").parse(),
        Err(Error::InvalidInteger(IntErrorKind::NegOverflow))
    ));
}

#[test]
fn the_ends_of_the_integer_range_parse() {
    let smallest = Parser::new(b"i-9223372036854775808e").parse().unwrap();
    assert_eq!(smallest.as_int().unwrap(), i64::MIN);
    let largest = Parser::new(b"i9223372036854775807e").parse().unwrap();
    assert_eq!(largest.as_int().unwrap(), i64::MAX);
}

#[test]
fn a_length_with_a_leading_zero_is_rejected() {
    assert!(matches!(
        Parser::new(b"04:spam").parse(),
        Err(Error::InvalidBencodeInteger(_))
    ));
}

#[test]
fn a_length_that_reaches_beyond_the_address_space_is_an_early_end() {
    assert!(matches!(
        Parser::new(b"18446744073709551615:x").parse(),
        Err(Error::UnexpectedEof)
    ));
}

#[test]
fn elements_are_parsed_one_behind_the_other() {
    let mut parser = Parser::new(b"i1e1:xle");
    assert_eq!(parser.parse().unwrap().as_int().unwrap(), 1);
    assert_eq!(parser.parse().unwrap().as_bytes().unwrap(), b"x");
    assert!(parser.parse().unwrap().as_list().unwrap().is_empty());
    assert!(matches!(parser.parse(), Err(Error::UnexpectedEof)));
}

#[test]
fn the_default_depth_limit_is_64() {
    let mut inside: Vec<u8> = vec![b'l'; 64];
    inside.extend(vec![b'e'; 64]);
    assert!(Parser::new(&inside).parse().is_ok());
    let mut beyond: Vec<u8> = vec![b'l'; 65];
    beyond.extend(vec![b'e'; 65]);
    assert!(matches!(
        Parser::new(&beyond).parse(),
        Err(Error::DepthLimitExceeded)
    ));
}

#[test]
fn accessors_tell_the_kinds_apart() {
    let mut dict: SortedMap<&[u8], Bencode<'_>> = SortedMap::new();
    dict.insert(b"k", Bencode::Int(1));
    let dict = Bencode::Dict(dict);
    let list = Bencode::List(vec![Bencode::Bytes(b"x")]);
    assert!(matches!(dict.as_int(), Err(Error::WrongType { expected: "int" })));
    assert!(matches!(list.as_bytes(), Err(Error::WrongType { expected: "bytes" })));
    assert!(matches!(list.as_dict(), Err(Error::WrongType { expected: "dict" })));
    assert!(matches!(
        Bencode::Int(0).into_list(),
        Err(Error::WrongType { expected: "list" })
    ));
    assert!(matches!(
        Bencode::Int(0).into_dict(),
        Err(Error::WrongType { expected: "dict" })
    ));
    assert_eq!(list.into_list().unwrap(), vec![Bencode::Bytes(b"x")]);
    assert_eq!(dict.into_dict().unwrap().len(), 1);
    assert!(matches!(
        Bencode::Bytes(b"\xff").as_str(),
        Err(Error::InvalidUtf8(_))
    ));
}

#[test]
fn encoding_writes_keys_in_order() {
    let mut dict: SortedMap<&[u8], Bencode<'_>> = SortedMap::new();
    dict.insert(b"spam", Bencode::List(vec![Bencode::Int(-3), Bencode::Bytes(b"")]));
    dict.insert(b"bar", Bencode::Bytes(b"\x00\xff"));
    let element = Bencode::Dict(dict);
    let expected = b"d3:bar2:\x00\xff4:spamli-3e0:ee";
    assert_eq!(element.encode(), expected.to_vec());
    assert_eq!(element.encoded_len(), expected.len());
    let mut buf: Vec<u8> = b"<".to_vec();
    element.encode_extend(&mut buf);
    assert_eq!(buf[1..], expected[..]);
    let mut written: Vec<u8> = Vec::new();
    element.encode_to_writer(&mut written);
    assert_eq!(written, expected.to_vec());
    assert_eq!(element.clone(), element);
}

#[test]
fn parsing_undoes_encoding() {
    let mut inner: SortedMap<&[u8], Bencode<'_>> = SortedMap::new();
    inner.insert(b"", Bencode::Int(i64::MIN));
    let element = Bencode::List(vec![
        Bencode::Dict(inner),
        Bencode::Bytes(b"i1e"),
        Bencode::List(vec![]),
    ]);
    let bytes = element.encode();
    assert_eq!(Parser::new(&bytes).parse().unwrap(), element);
}

#[test]
fn encoding_undoes_parsing() {
    let bytes = b"d4:infod6:lengthi12e4:name3:abce4:listli0ei-1e4:spamee";
    assert_eq!(Parser::new(bytes).parse().unwrap().encode(), bytes.to_vec());
}

#[test]
fn a_plus_sign_is_read_but_not_written() {
    let element = Parser::new(b"i+5e").parse().unwrap();
    assert_eq!(element, Bencode::Int(5));
    assert_eq!(element.encode(), b"i5e".to_vec());
}

#[test]
fn a_map_keeps_its_keys_in_order() {
    let mut map: SortedMap<&[u8], u8> = SortedMap::new();
    assert_eq!(map.insert(b"b", 1), None);
    assert_eq!(map.insert(b"a", 2), None);
    assert_eq!(map.insert(b"b", 3), Some(1));
    assert_eq!(map.insert(b"", 4), None);
    assert_eq!(map.len(), 3);
    assert_eq!(map.key_at(0), &&b""[..]);
    assert_eq!(map.key_at(1), &&b"a"[..]);
    assert_eq!(*map.value_at(2), 3);
    assert_eq!(map.get(b"c"), None);
    assert_eq!(
        map.into_entries(),
        vec![(&b""[..], 4), (&b"a"[..], 2), (&b"b"[..], 3)]
    );
}
