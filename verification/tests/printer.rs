use hexrow::hexfmt::padding;
use hexrow::printer::{Printer, Row};
use hexrow::{Error, Numeric};

fn plain_rows(width: usize, group: usize, numeric: Numeric, input: &[u8]) -> Vec<Row> {
    colorz::mode::set_coloring_mode(colorz::mode::Mode::Never);
    let mut printer = Printer::new(width, group, numeric).unwrap();
    let mut rows = Vec::new();
    printer.pretty_hex(input, &mut rows);
    rows
}

#[test]
fn configuration_boundaries() {
    assert!(matches!(
        Printer::new(1, 1, Numeric::Decimal),
        Err(Error::Width)
    ));
    assert!(matches!(
        Printer::new(4096, 1, Numeric::Decimal),
        Err(Error::Width)
    ));
    assert!(Printer::new(2, 1, Numeric::Decimal).is_ok());
    assert!(Printer::new(4095, 1, Numeric::Decimal).is_ok());
    assert!(matches!(
        Printer::new(16, 17, Numeric::Decimal),
        Err(Error::Grouping)
    ));
    assert!(matches!(
        Printer::new(16, 0, Numeric::Decimal),
        Err(Error::Grouping)
    ));
    assert!(Printer::new(16, 16, Numeric::Decimal).is_ok());
}

#[test]
fn single_row_end_to_end() {
    let rows = plain_rows(3, 3, Numeric::Decimal, &[0x41, 0x20, 0x01]);
    assert_eq!(rows.len(), 1);
    assert_eq!(rows[0].addr, 0);
    assert_eq!(rows[0].hex, " 412001");
    assert_eq!(rows[0].table, "A .");
    assert_eq!(rows[0].line, "0000_0000_0000_0000: 412001 | A . |");
}

#[test]
fn grouped_hex_area_and_padding() {
    // Two full rows and one padded partial row.
    let rows = plain_rows(4, 2, Numeric::Decimal, b"abcdefghij");
    assert_eq!(rows.len(), 3);
    assert_eq!(rows[0].hex, " 6162 6364");
    assert_eq!(rows[1].hex, " 6566 6768");
    assert_eq!(rows[2].hex, " 696a     ");
    assert_eq!(rows[2].table, "ij  ");
    for row in &rows {
        assert_eq!(row.hex.len(), padding(2, 4));
    }
}

#[test]
fn addresses_advance_by_width() {
    let rows = plain_rows(4, 4, Numeric::Decimal, b"0123456789");
    assert_eq!(rows.len(), 3);
    assert_eq!(rows[0].addr, 0);
    assert_eq!(rows[1].addr, 4);
    assert_eq!(rows[2].addr, 8);
    assert!(rows[1].line.starts_with("0000_0000_0000_0004:"));
}

#[test]
fn address_persists_across_sources() {
    colorz::mode::set_coloring_mode(colorz::mode::Mode::Never);
    let mut printer = Printer::new(4, 4, Numeric::Decimal).unwrap();
    let mut rows = Vec::new();
    printer.pretty_hex(b"abcd", &mut rows);
    printer.pretty_hex(b"ef", &mut rows);
    assert_eq!(rows.len(), 2);
    assert_eq!(rows[0].addr, 0);
    assert_eq!(rows[1].addr, 4);
}

#[test]
fn hex_areas_reconstruct_input() {
    let input: Vec<u8> = (0u8..=255).collect();
    for &(width, group) in &[(3usize, 1usize), (4, 2), (5, 5), (16, 2)] {
        let rows = plain_rows(width, group, Numeric::Hexadecimal, &input);
        let mut recon: Vec<u8> = Vec::new();
        for row in &rows {
            let digits: String = row.hex.chars().filter(|c| *c != ' ').collect();
            for pair in digits.as_bytes().chunks(2) {
                let text = std::str::from_utf8(pair).unwrap();
                recon.push(u8::from_str_radix(text, 16).unwrap());
            }
        }
        assert_eq!(recon, input);
    }
}

#[test]
fn table_marks_control_and_invalid_bytes() {
    let rows = plain_rows(4, 4, Numeric::Decimal, &[0x41, 0x00, 0xff, 0x39]);
    assert_eq!(rows.len(), 1);
    assert_eq!(rows[0].table, "A..9");
}

#[test]
fn wide_cluster_wraps_to_next_row() {
    // Fifteen bytes of one double-wide cluster at width 8: the cluster shows
    // once at the start, the next cell is skipped, and every other byte is a
    // blank, split across two rows with the second padded to full width.
    let astronaut = "👩🏻‍🚀".as_bytes();
    let rows = plain_rows(8, 8, Numeric::Decimal, astronaut);
    assert_eq!(rows.len(), 2);
    assert!(rows[0].table.starts_with("👩🏻‍🚀"));
    assert_eq!(rows[0].table.chars().filter(|c| *c == ' ').count(), 6);
    assert_eq!(rows[1].table, "        ");
}

#[test]
fn empty_input_emits_no_rows() {
    let rows = plain_rows(8, 2, Numeric::Decimal, b"");
    assert!(rows.is_empty());
}

#[test]
fn pretty_addr_formats_four_fields() {
    let printer = Printer::new(16, 2, Numeric::Decimal).unwrap();
    assert_eq!(printer.pretty_addr(), "0000_0000_0000_0000");
}

#[test]
fn padding_counts_digits_and_separators() {
    assert_eq!(padding(2, 16), 40);
    assert_eq!(padding(3, 3), 7);
    assert_eq!(padding(1, 4), 12);
    assert_eq!(padding(4, 0), 0);
    assert_eq!(padding(4, 5), 12);
}
