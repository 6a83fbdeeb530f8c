//! The lenient parser.
use bitors::parse::{BencodeError, BencodeValue, Parser};

#[test]
fn positions_and_spans_follow_the_parser() {
    let mut parser = Parser::new(b"i42e4:spamle");
    assert_eq!(parser.position(), 0);
    assert!(matches!(parser.parse(), Ok(BencodeValue::Int(42))));
    assert_eq!(parser.position(), 4);
    assert!(matches!(parser.parse(), Ok(BencodeValue::Bytes(b"spam"))));
    assert_eq!(parser.raw_span(4), b"4:spam");
    assert_eq!(parser.raw_span(10), b"");
    match parser.parse() {
        Ok(BencodeValue::List(items)) => assert!(items.is_empty()),
        _ => panic!("not a list"),
    }
    assert!(matches!(parser.parse(), Err(BencodeError::UnexpectedEof)));
}

#[test]
fn keys_may_come_in_any_order_and_the_last_value_counts() {
    match Parser::new(b"d1:bi1e1:ai2e1:bi3ee").parse() {
        Ok(BencodeValue::Dict(dict)) => {
            assert_eq!(dict.len(), 2);
            assert!(matches!(dict.get(b"a"), Some(BencodeValue::Int(2))));
            assert!(matches!(dict.get(b"b"), Some(BencodeValue::Int(3))));
        }
        _ => panic!("not a dictionary"),
    }
}

#[test]
fn nesting_has_no_limit() {
    let mut data: Vec<u8> = vec![b'l'; 100];
    data.extend(vec![b'e'; 100]);
    assert!(Parser::new(&data).parse().is_ok());
}

#[test]
fn a_length_may_have_leading_zeros() {
    assert!(matches!(
        Parser::new(b"004:spam").parse(),
        Ok(BencodeValue::Bytes(b"spam"))
    ));
}

#[test]
fn malformed_data_is_rejected() {
    assert!(matches!(
        Parser::new(b"i03e").parse(),
        Err(BencodeError::InvalidBencodeInteger(_))
    ));
    assert!(matches!(
        Parser::new(b"i-0e").parse(),
        Err(BencodeError::InvalidBencodeInteger(_))
    ));
    assert!(matches!(
        Parser::new(b"ixe").parse(),
        Err(BencodeError::InvalidInteger(_))
    ));
    assert!(matches!(
        Parser::new(b"i\xffe").parse(),
        Err(BencodeError::InvalidUtf8(_))
    ));
    assert!(matches!(
        Parser::new(b"x").parse(),
        Err(BencodeError::UnexpectedByte(0, b'x'))
    ));
    assert!(matches!(
        Parser::new(b"di1ei2ee").parse(),
        Err(BencodeError::NonStringKey)
    ));
    assert!(matches!(
        Parser::new(b"5:spam").parse(),
        Err(BencodeError::UnexpectedEof)
    ));
}

#[test]
fn what_the_strict_parser_reads_is_read_in_the_same_way() {
    let data = b"d1:ali1e2:xye1:bd0:i-7eee";
    let strict = bitors::Parser::new(data).parse().unwrap();
    let strict = strict.as_dict().unwrap();
    let mut parser = Parser::new(data);
    let dict = match parser.parse() {
        Ok(BencodeValue::Dict(dict)) => dict,
        _ => panic!("not a dictionary"),
    };
    assert_eq!(parser.position(), data.len());
    assert_eq!(dict.len(), strict.len());
    match dict.get(b"a") {
        Some(BencodeValue::List(items)) => {
            assert!(matches!(items[0], BencodeValue::Int(1)));
            assert!(matches!(items[1], BencodeValue::Bytes(b"xy")));
        }
        _ => panic!("not a list"),
    }
    match dict.get(b"b") {
        Some(BencodeValue::Dict(inner)) => {
            assert!(matches!(inner.get(b""), Some(BencodeValue::Int(-7))));
        }
        _ => panic!("not a dictionary"),
    }
}

#[test]
fn a_span_read_alone_gives_the_same_value() {
    let mut parser = Parser::new(b"i1ed1:bli2e003:xyze1:ai7ee4:tail");
    parser.parse().unwrap();
    let start = parser.position();
    let value = parser.parse().unwrap();
    let span = parser.raw_span(start);
    assert_eq!(span, b"d1:bli2e003:xyze1:ai7ee");
    let mut alone = Parser::new(span);
    let again = alone.parse().unwrap();
    assert_eq!(alone.position(), span.len());
    assert_eq!(format!("{again:?}"), format!("{value:?}"));
}
