use resp_kv::resp::parser::{
    get_length_of_current_element, read_until_crlf, RespElementConstructor, RespParseError,
    RespSerialize,
};
use resp_kv::resp::types::{RespArray, RespBulkString, RespInteger, RespSimpleString};
use resp_kv::resp::RespElement;

fn parse(bytes: &[u8]) -> Result<(RespElement, &[u8]), RespParseError> {
    RespElement::from_byte_slice(bytes)
}

fn round_trip(e: &RespElement) -> Vec<u8> {
    let bytes = e.to_bytes();
    let (back, rest) = parse(&bytes).expect("encoded element parses");
    assert!(rest.is_empty());
    assert_eq!(back.to_bytes(), bytes);
    bytes
}

#[test]
fn bulk_string_encodes_and_round_trips() {
    let e = RespElement::new_bulk_string(b"hello");
    assert_eq!(round_trip(&e), b"$5\r\nhello\r\n".to_vec());
}

#[test]
fn bulk_string_keeps_embedded_delimiters() {
    let e = RespElement::new_bulk_string(b"a\r\nb");
    assert_eq!(round_trip(&e), b"$4\r\na\r\nb\r\n".to_vec());
    let (back, _) = parse(b"$4\r\na\r\nb\r\n").unwrap();
    match back {
        RespElement::BulkString(b) => {
            assert_eq!(b.length, 4);
            assert_eq!(b.value, b"a\r\nb".to_vec());
        }
        _ => panic!("expected a bulk string"),
    }
}

#[test]
fn simple_string_encodes_and_round_trips() {
    let e = RespElement::SimpleString(RespSimpleString { value: "OK".to_string() });
    assert_eq!(round_trip(&e), b"+OK\r\n".to_vec());
    let e = RespElement::SimpleString(RespSimpleString { value: "héllo".to_string() });
    round_trip(&e);
}

#[test]
fn integer_encodes_and_round_trips() {
    let cases: Vec<(isize, &[u8])> = vec![
        (0, b":0\r\n"),
        (42, b":42\r\n"),
        (-5, b":-5\r\n"),
    ];
    for (v, expected) in cases {
        let e = RespElement::Integer(RespInteger { value: v });
        assert_eq!(round_trip(&e), expected.to_vec());
    }
    round_trip(&RespElement::Integer(RespInteger { value: isize::MIN }));
    round_trip(&RespElement::Integer(RespInteger { value: isize::MAX }));
}

#[test]
fn integer_accepts_explicit_plus_sign() {
    let (e, rest) = parse(b":+17\r\nX").unwrap();
    assert_eq!(rest, b"X");
    match e {
        RespElement::Integer(i) => assert_eq!(i.value, 17),
        _ => panic!("expected an integer"),
    }
}

#[test]
fn nested_array_round_trips() {
    let inner = RespElement::new_array(vec![
        RespElement::Integer(RespInteger { value: -3 }),
        RespElement::SimpleString(RespSimpleString { value: "x".to_string() }),
    ]);
    let outer = RespElement::new_array(vec![RespElement::new_bulk_string(b"GET"), inner]);
    assert_eq!(
        round_trip(&outer),
        b"*2\r\n$3\r\nGET\r\n*2\r\n:-3\r\n+x\r\n".to_vec()
    );
}

#[test]
fn array_new_counts_elements() {
    let a = RespArray::new(vec![RespElement::new_bulk_string(b"a"), RespElement::new_bulk_string(b"b")]);
    assert_eq!(a.length, 2);
    assert_eq!(a.to_bytes(), b"*2\r\n$1\r\na\r\n$1\r\nb\r\n".to_vec());
    let b = RespBulkString::new(b"xyz");
    assert_eq!(b.length, 3);
    assert_eq!(b.value, b"xyz".to_vec());
}

#[test]
fn parse_returns_the_remainder() {
    let (e, rest) = parse(b"+OK\r\n+NEXT\r\n").unwrap();
    assert_eq!(rest, b"+NEXT\r\n");
    match e {
        RespElement::SimpleString(s) => assert_eq!(s.value, "OK"),
        _ => panic!("expected a simple string"),
    }
}

#[test]
fn parse_errors() {
    assert!(matches!(parse(b""), Err(RespParseError::UnexpectedEof)));
    assert!(matches!(parse(b"?abc\r\n"), Err(RespParseError::UnknownTypePrefix)));
    assert!(matches!(parse(b"$0\r\n\r\n"), Err(RespParseError::UnexpectedEof)));
    assert!(matches!(parse(b"*0\r\n"), Err(RespParseError::UnexpectedEof)));
    assert!(matches!(parse(b"$3\r\nfooX\r\n"), Err(RespParseError::InvalidElement)));
    assert!(matches!(parse(b":abc\r\n"), Err(RespParseError::InvalidElement)));
    assert!(matches!(parse(b":\r\n"), Err(RespParseError::InvalidElement)));
    assert!(matches!(parse(b"$x\r\nfoo\r\n"), Err(RespParseError::InvalidElement)));
    assert!(matches!(parse(b"+\xff\xfe\r\n"), Err(RespParseError::InvalidElement)));
    assert!(matches!(parse(b"$10\r\nabc\r\n"), Err(RespParseError::UnexpectedEof)));
    assert!(matches!(parse(b"*2\r\n$1\r\na\r\n?\r\n"), Err(RespParseError::UnknownTypePrefix)));
}

#[test]
fn typed_constructors_check_their_prefix() {
    assert!(matches!(RespArray::from_byte_slice(b"+OK\r\n"), Err(RespParseError::UnknownTypePrefix)));
    assert!(matches!(RespBulkString::from_byte_slice(b":1\r\n"), Err(RespParseError::UnknownTypePrefix)));
    assert!(matches!(RespInteger::from_byte_slice(b""), Err(RespParseError::UnexpectedEof)));
    assert!(matches!(RespSimpleString::from_byte_slice(b"$1\r\na\r\n"), Err(RespParseError::UnknownTypePrefix)));
    let (i, rest) = RespInteger::from_byte_slice(b":-12\r\n").unwrap();
    assert_eq!(i.value, -12);
    assert!(rest.is_empty());
}

#[test]
fn truncated_frames_are_rejected() {
    let frames: Vec<&[u8]> = vec![
        b"+OK\r\n",
        b":-42\r\n",
        b"$3\r\nfoo\r\n",
        b"*2\r\n$3\r\nGET\r\n$3\r\nfoo\r\n",
        b"*1\r\n*1\r\n:7\r\n",
    ];
    for frame in frames {
        assert!(parse(frame).is_ok());
        let cut = &frame[..frame.len() - 1];
        assert!(parse(cut).is_err(), "{:?}", cut);
    }
}

#[test]
fn read_until_crlf_splits_at_the_first_delimiter() {
    let (line, rest) = read_until_crlf(b"ab\r\ncd\r\n").unwrap();
    assert_eq!(line, b"ab");
    assert_eq!(rest, b"cd\r\n");
    let (line, rest) = read_until_crlf(b"abc").unwrap();
    assert_eq!(line, b"abc");
    assert!(rest.is_empty());
    let (line, rest) = read_until_crlf(b"a\r\r\nb").unwrap();
    assert_eq!(line, b"a\r");
    assert_eq!(rest, b"b");
}

#[test]
fn length_line_reading() {
    let (n, rest) = get_length_of_current_element(b"12\r\nabc").unwrap();
    assert_eq!(n, 12);
    assert_eq!(rest, b"abc");
    assert!(matches!(get_length_of_current_element(b"0\r\n"), Err(RespParseError::UnexpectedEof)));
    assert!(matches!(get_length_of_current_element(b"-1\r\n"), Err(RespParseError::InvalidElement)));
    assert!(matches!(get_length_of_current_element(b"12"), Err(RespParseError::UnexpectedEof)));
    assert!(matches!(
        get_length_of_current_element(b"99999999999999999999999\r\n"),
        Err(RespParseError::InvalidElement)
    ));
}
