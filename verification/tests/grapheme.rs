use hexrow::grapheme::{Char, Span};

#[test]
fn test_as_ascii() {
    let astronaut = "👩🏻‍🚀".as_bytes();
    let span = Span::parse(astronaut).unwrap();

    // Normal cases: grapheme cluster is shown on first line.
    for j in 0..7 {
        assert!(matches!(span.as_char(0, j, 8), Char::Cluster(_)));
        assert!(matches!(span.as_char(1, (j + 1) % 8, 8), Char::Skip));
        for i in 2..astronaut.len() {
            assert!(matches!(span.as_char(i, (j + i) % 8, 8), Char::Space));
        }
    }

    // Edge case: grapheme cluster is shown on second line.
    assert!(matches!(span.as_char(0, 7, 8), Char::Space));
    assert!(matches!(span.as_char(1, 0, 8), Char::Cluster(_)));
    assert!(matches!(span.as_char(2, 1, 8), Char::Skip));
    for i in 3..astronaut.len() {
        assert!(matches!(span.as_char(i, (i - 2) % 8, 8), Char::Space));
    }
}

#[test]
fn parse_takes_first_cluster() {
    let bytes = "éx".as_bytes();
    let span = Span::parse(bytes).unwrap();
    assert_eq!(span.bytes, "é".as_bytes());
    assert_eq!(span.parsed, Some("é"));
}

#[test]
fn parse_rejects_invalid_utf8() {
    assert!(Span::parse(&[0xff, 0x41]).is_none());
    assert!(Span::parse(&[]).is_none());
}

#[test]
fn narrow_cluster_pads_surplus_bytes() {
    // A two-byte, single-width cluster: the first byte shows it, the second
    // byte becomes a blank cell.
    let bytes = "é".as_bytes();
    let span = Span::parse(bytes).unwrap();
    assert!(matches!(span.as_char(0, 0, 4), Char::Cluster(_)));
    assert!(matches!(span.as_char(1, 1, 4), Char::Space));
}

#[test]
fn ascii_span_wraps_bytes() {
    let span = Span::ascii(b"abc");
    assert_eq!(span.bytes, b"abc");
    assert!(span.parsed.is_none());
}
