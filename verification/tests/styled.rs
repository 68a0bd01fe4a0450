use hexrow::printer::Printer;
use hexrow::Numeric;

#[test]
fn forced_colors_embed_plain_text() {
    colorz::mode::set_coloring_mode(colorz::mode::Mode::Always);
    let mut printer = Printer::new(4, 2, Numeric::Decimal).unwrap();
    let mut rows = Vec::new();
    printer.pretty_hex(b"abcd", &mut rows);
    assert_eq!(rows.len(), 1);
    // The styled line carries color escapes, with the plain fragments intact
    // inside them; the unstyled row fields stay plain.
    assert!(rows[0].line.contains('\u{1b}'));
    assert!(rows[0].line.contains("0000_0000_0000_0000"));
    assert!(rows[0].line.contains(" 6162 6364"));
    assert!(rows[0].line.contains("abcd"));
    assert!(!rows[0].hex.contains('\u{1b}'));
    assert!(!rows[0].table.contains('\u{1b}'));
}
