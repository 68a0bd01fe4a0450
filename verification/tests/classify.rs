use hexrow::group::{Group, Kind};
use hexrow::Numeric;

#[test]
fn gather_splits_digits_from_printables() {
    let group = Group::gather(b"123abc", Numeric::Decimal);
    assert_eq!(group.kind, Kind::Numeric);
    assert_eq!(group.span.bytes, b"123");

    let group = Group::gather(b"abc 123", Numeric::Decimal);
    assert_eq!(group.kind, Kind::Printable);
    assert_eq!(group.span.bytes, b"abc ");
}

#[test]
fn gather_hexadecimal_mode_extends_over_hex_digits() {
    let group = Group::gather(b"123abcZ", Numeric::Hexadecimal);
    assert_eq!(group.kind, Kind::Numeric);
    assert_eq!(group.span.bytes, b"123abc");
}

#[test]
fn gather_octal_mode_stops_at_seven() {
    let group = Group::gather(b"0167", Numeric::Octal);
    assert_eq!(group.kind, Kind::Numeric);
    assert_eq!(group.span.bytes, b"016");
}

#[test]
fn gather_control_run() {
    let group = Group::gather(&[0x01, 0x1f, 0x7f, 0x41], Numeric::Decimal);
    assert_eq!(group.kind, Kind::Control);
    assert_eq!(group.span.bytes, &[0x01, 0x1f, 0x7f]);
}

#[test]
fn gather_grapheme_cluster() {
    let bytes = "é!".as_bytes();
    let group = Group::gather(bytes, Numeric::Decimal);
    assert_eq!(group.kind, Kind::Graphemes);
    assert_eq!(group.span.bytes, "é".as_bytes());
    assert_eq!(group.span.parsed, Some("é"));
}

#[test]
fn gather_invalid_run_stops_before_cluster() {
    // The second byte opens a valid cluster, so the invalid run is one byte.
    let mut bytes = vec![0xff];
    bytes.extend_from_slice("é".as_bytes());
    let group = Group::gather(&bytes, Numeric::Decimal);
    assert_eq!(group.kind, Kind::Invalid);
    assert_eq!(group.span.bytes, &[0xff]);
}

#[test]
fn gather_invalid_run_swallows_invalid_bytes() {
    let group = Group::gather(&[0xff, 0xfe, 0xfd, 0x41], Numeric::Decimal);
    assert_eq!(group.kind, Kind::Invalid);
    assert_eq!(group.span.bytes, &[0xff, 0xfe, 0xfd]);
}

#[test]
fn gather_always_consumes_at_least_one_byte() {
    let inputs: Vec<Vec<u8>> = vec![
        vec![0x00],
        vec![0x41],
        vec![0x39],
        vec![0xff],
        "🚀".as_bytes().to_vec(),
    ];
    for input in inputs {
        let group = Group::gather(&input, Numeric::Decimal);
        assert!(!group.span.bytes.is_empty());
        assert!(group.span.bytes.len() <= input.len());
    }
}

#[test]
fn predicates_follow_numeric_mode() {
    assert!(Kind::is_numeric(b'6', Numeric::Octal));
    assert!(!Kind::is_numeric(b'7', Numeric::Octal));
    assert!(Kind::is_numeric(b'9', Numeric::Decimal));
    assert!(!Kind::is_numeric(b'a', Numeric::Decimal));
    assert!(Kind::is_numeric(b'f', Numeric::Hexadecimal));
    assert!(Kind::is_numeric(b'F', Numeric::Hexadecimal));
    assert!(!Kind::is_numeric(b'g', Numeric::Hexadecimal));
    assert!(Kind::is_printable(b' '));
    assert!(Kind::is_printable(b'~'));
    assert!(!Kind::is_printable(0x7f));
    assert!(Kind::is_control(0x00));
    assert!(Kind::is_control(0x7f));
    assert!(!Kind::is_control(b'A'));
}

#[test]
fn from_token_is_case_insensitive() {
    assert!(matches!(Numeric::from_token("o"), Ok(Numeric::Octal)));
    assert!(matches!(Numeric::from_token("OCT"), Ok(Numeric::Octal)));
    assert!(matches!(Numeric::from_token("Octal"), Ok(Numeric::Octal)));
    assert!(matches!(Numeric::from_token("d"), Ok(Numeric::Decimal)));
    assert!(matches!(Numeric::from_token("DEC"), Ok(Numeric::Decimal)));
    assert!(matches!(Numeric::from_token("decimal"), Ok(Numeric::Decimal)));
    assert!(matches!(Numeric::from_token("h"), Ok(Numeric::Hexadecimal)));
    assert!(matches!(Numeric::from_token("X"), Ok(Numeric::Hexadecimal)));
    assert!(matches!(Numeric::from_token("Hex"), Ok(Numeric::Hexadecimal)));
    assert!(matches!(
        Numeric::from_token("hexadecimal"),
        Ok(Numeric::Hexadecimal)
    ));
}

#[test]
fn from_token_reports_unknown_tokens() {
    match Numeric::from_token("bogus") {
        Err(hexrow::Error::UnknownNumeric(token)) => assert_eq!(token, "bogus"),
        _ => panic!("expected an unknown-numeric error"),
    }
}
