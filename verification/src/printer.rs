use crate::grapheme::{display_width, Char};
use crate::group::{classify_spec, gather_cluster, gather_len, Group, Kind};
use crate::hexfmt::{
    hex_area, hex_digit, lemma_ascii_valid_utf8, lemma_hex_area_ascii, lemma_padding_counts,
    padding, padding_spec, spaces, to_hex_digit,
};
use crate::{Error, Numeric};
use colorz::Colorize;
use vstd::prelude::*;
use vstd::string::StringExecFns;
use vstd::utf8::{decode_utf8, encode_utf8, valid_utf8};

verus! {

broadcast use vstd::utf8::valid_utf8_concat;

/// The table cell for one byte of a homogeneous group: the byte itself when
/// printable or numeric, a placeholder dot otherwise.
pub open spec fn simple_cell(kind: Kind, byte: u8) -> u8 {
    match kind {
        Kind::Printable | Kind::Numeric => byte,
        _ => 0x2e,
    }
}

/// The table contribution of the byte at `index` of a grapheme cluster when it
/// lands at row column `col`: the cluster text once, where it is placed;
/// nothing for the column that the second cell of a double-wide glyph fills; a
/// blank for every surplus encoding byte.
pub open spec fn cluster_cell(cluster: Seq<char>, index: int, col: int, w: int) -> Seq<u8> {
    let wide = display_width(cluster) == 2;
    if (index == 0 && (!wide || col != w - 1)) || (index == 1 && wide && col == 0) {
        encode_utf8(cluster)
    } else if wide && ((index == 1 && col != 0) || (index == 2 && col == 1)) {
        Seq::empty()
    } else {
        seq![0x20u8]
    }
}

/// The table contribution of one byte of a group of the given kind.
pub open spec fn group_cell(
    kind: Kind,
    cluster: Seq<char>,
    byte: u8,
    index: int,
    col: int,
    w: int,
) -> Seq<u8> {
    match kind {
        Kind::Graphemes => cluster_cell(cluster, index, col, w),
        _ => seq![simple_cell(kind, byte)],
    }
}

/// The table text appended for a group's bytes, the first landing at in-row
/// column `c0` and the column wrapping at `w`.
pub open spec fn table_ext(
    kind: Kind,
    cluster: Seq<char>,
    bytes: Seq<u8>,
    c0: int,
    w: int,
) -> Seq<u8>
    decreases bytes.len(),
{
    if bytes.len() == 0 {
        Seq::empty()
    } else {
        table_ext(kind, cluster, bytes.drop_last(), c0, w) + group_cell(
            kind,
            cluster,
            bytes.last(),
            bytes.len() - 1,
            (c0 + bytes.len() - 1) % w,
            w,
        )
    }
}

/// The cluster text a group carries, empty for the homogeneous kinds.
pub open spec fn group_cluster(g: Group<'_>) -> Seq<char> {
    if g.span.parsed is Some {
        g.span.parsed->0@
    } else {
        Seq::empty()
    }
}

/// The concatenated unstyled table text of a sequence of rows.
pub open spec fn rows_tables(rows: Seq<Row>) -> Seq<u8>
    decreases rows.len(),
{
    if rows.len() == 0 {
        Seq::empty()
    } else {
        rows_tables(rows.drop_last()) + encode_utf8(rows.last().table@)
    }
}

/// The table text of a whole byte source: each classification step consumes
/// its bytes and contributes its group's table text, the in-row column
/// threading through the groups and wrapping at `w`.
pub open spec fn stream_table(bytes: Seq<u8>, numeric: Numeric, c0: int, w: int) -> Seq<u8>
    decreases bytes.len(),
{
    if bytes.len() == 0 {
        Seq::empty()
    } else {
        let n = gather_len(bytes, numeric);
        if 1 <= n <= bytes.len() {
            table_ext(
                classify_spec(bytes, numeric),
                gather_cluster(bytes, numeric),
                bytes.take(n),
                c0,
                w,
            ) + stream_table(bytes.skip(n), numeric, (c0 + n) % w, w)
        } else {
            Seq::empty()
        }
    }
}

/// The table text of concatenated row sequences is the concatenation of their
/// table texts.
proof fn lemma_rows_tables_concat(a: Seq<Row>, b: Seq<Row>)
    ensures
        rows_tables(a + b) == rows_tables(a) + rows_tables(b),
    decreases b.len(),
{
    if b.len() == 0 {
        assert(a + b =~= a);
        assert(rows_tables(a) + rows_tables(b) =~= rows_tables(a));
    } else {
        assert((a + b).drop_last() =~= a + b.drop_last());
        lemma_rows_tables_concat(a, b.drop_last());
        assert((a + b).last() == b.last());
        assert(rows_tables(a + b) =~= rows_tables(a) + rows_tables(b));
    }
}

/// The four hex digits of one 16-bit address field, highest nibble first.
pub open spec fn field_hex(v: u64) -> Seq<u8> {
    seq![
        hex_digit(((v >> 12) & 0xf) as u8),
        hex_digit(((v >> 8) & 0xf) as u8),
        hex_digit(((v >> 4) & 0xf) as u8),
        hex_digit((v & 0xf) as u8),
    ]
}

/// The printed address: four fields of four hex digits joined by underscores.
pub open spec fn addr_area(addr: u64) -> Seq<u8> {
    field_hex((addr >> 48) & 0xffff) + seq![0x5fu8] + field_hex((addr >> 32) & 0xffff)
        + seq![0x5fu8] + field_hex((addr >> 16) & 0xffff) + seq![0x5fu8] + field_hex(addr & 0xffff)
}

/// Relies on colorz's `Colorize::bright_yellow`: the styled display embeds the
/// text between a style prefix and suffix decided by the global coloring mode.
#[verifier::external_body]
fn style_control(text: &str) -> (r: String)
    ensures
        exists|pre: Seq<char>, suf: Seq<char>| r@ == pre + text@ + suf,
{
    format!("{}", text.bright_yellow())
}

/// Relies on colorz's `Colorize::bright_green`: the styled display embeds the
/// text between a style prefix and suffix decided by the global coloring mode.
#[verifier::external_body]
fn style_printable(text: &str) -> (r: String)
    ensures
        exists|pre: Seq<char>, suf: Seq<char>| r@ == pre + text@ + suf,
{
    format!("{}", text.bright_green())
}

/// Relies on colorz's `Colorize::bright_cyan`: the styled display embeds the
/// text between a style prefix and suffix decided by the global coloring mode.
#[verifier::external_body]
fn style_numeric(text: &str) -> (r: String)
    ensures
        exists|pre: Seq<char>, suf: Seq<char>| r@ == pre + text@ + suf,
{
    format!("{}", text.bright_cyan())
}

/// Relies on colorz's `Colorize::green` and `StyledValue::bold`: the styled
/// display embeds the text between a style prefix and suffix decided by the
/// global coloring mode.
#[verifier::external_body]
fn style_graphemes(text: &str) -> (r: String)
    ensures
        exists|pre: Seq<char>, suf: Seq<char>| r@ == pre + text@ + suf,
{
    format!("{}", text.green().bold())
}

/// Relies on colorz's `Colorize::bright_red`: the styled display embeds the
/// text between a style prefix and suffix decided by the global coloring mode.
#[verifier::external_body]
fn style_invalid(text: &str) -> (r: String)
    ensures
        exists|pre: Seq<char>, suf: Seq<char>| r@ == pre + text@ + suf,
{
    format!("{}", text.bright_red())
}

/// Relies on colorz's `Colorize::bright_blue`: the styled display embeds the
/// text between a style prefix and suffix decided by the global coloring mode.
#[verifier::external_body]
fn style_addr(text: &str) -> (r: String)
    ensures
        exists|pre: Seq<char>, suf: Seq<char>| r@ == pre + text@ + suf,
{
    format!("{}", text.bright_blue())
}

/// Convert bytes already known to be valid UTF-8 into owned text.
fn to_text(bytes: &[u8]) -> (r: String)
    requires
        valid_utf8(bytes@),
    ensures
        encode_utf8(r@) == bytes@,
{
    match crate::grapheme::utf8_to_str(bytes) {
        Some(s) => s.to_owned(),
        None => {
            proof {
                assert(false);
            }
            String::new()
        },
    }
}

/// Build a run of ASCII spaces.
fn make_spaces(n: usize) -> (r: Vec<u8>)
    ensures
        r@ == spaces(n as int),
{
    let mut v: Vec<u8> = Vec::new();
    let mut i: usize = 0;
    proof {
        assert(v@ =~= spaces(0));
    }
    while i < n
        invariant
            i <= n,
            v@ == spaces(i as int),
        decreases n - i,
    {
        v.push(0x20);
        i += 1;
        proof {
            assert(v@ =~= spaces(i as int));
        }
    }
    v
}

/// One emitted output row.
pub struct Row {
    /// The address of the row's first byte, as printed at the start of the line.
    pub addr: u64,
    /// The unstyled hex area, padded to the full hex-area width.
    pub hex: String,
    /// The unstyled table text, padded to the row width.
    pub table: String,
    /// The full styled line, ready to print.
    pub line: String,
    /// The input bytes the row covers.
    pub bytes: Ghost<Seq<u8>>,
}

/// Internal state for printing rows and grouping bytes.
pub struct PrinterState {
    /// Address of the first byte of the current row.
    pub addr: u64,
    /// Bytes already placed into the current row.
    pub column: usize,
    /// Styled hex fragments of the completed groups of the current row.
    pub hex: String,
    /// Styled table fragments of the completed groups of the current row.
    pub table: String,
    /// The unstyled bytes behind `hex`.
    pub plain_hex: Vec<u8>,
    /// The unstyled bytes behind `table`.
    pub plain_table: Vec<u8>,
    /// Pending unstyled hex text of the group being consumed.
    pub hex_group: Vec<u8>,
    /// Pending unstyled table text of the group being consumed.
    pub table_group: Vec<u8>,
    /// The bytes of the current row consumed so far.
    pub row_bytes: Ghost<Seq<u8>>,
}

/// Row printer. Pretty prints byte slices one row at a time.
pub struct Printer {
    /// Number of bytes per row.
    pub width: usize,
    /// Number of bytes to group within a row.
    pub group: usize,
    /// Numeric classification for the character table.
    pub numeric: Numeric,
    /// Total number of columns to print for the hex digits in each row.
    pub max: usize,
    /// Internal state for printing rows and grouping bytes.
    pub state: PrinterState,
}

impl Printer {
    /// The buffers agree with the bytes consumed so far for the current row.
    pub open spec fn buffers_ok(&self) -> bool {
        &&& 2 <= self.width <= 4095
        &&& 1 <= self.group <= self.width
        &&& self.max == padding_spec(self.group as int, self.width as int)
        &&& self.state.column <= self.width
        &&& self.state.column == self.state.row_bytes@.len()
        &&& self.state.plain_hex@ + self.state.hex_group@ == hex_area(
            self.state.row_bytes@,
            self.group as int,
        )
        &&& valid_utf8(self.state.plain_table@)
        &&& valid_utf8(self.state.table_group@)
    }

    /// The printer's invariant between bytes: a full row is always flushed at
    /// once, so strictly fewer than `width` bytes are pending.
    pub open spec fn wf(&self) -> bool {
        &&& self.buffers_ok()
        &&& self.state.column < self.width
    }

    /// A full or final row is ready to flush: its pending group fragments have
    /// been moved into the row buffers and it holds at least one byte.
    pub open spec fn flush_ready(&self) -> bool {
        &&& self.buffers_ok()
        &&& 0 < self.state.column
        &&& self.state.hex_group@ == Seq::<u8>::empty()
        &&& self.state.table_group@ == Seq::<u8>::empty()
    }

    /// The configuration fields of two printers agree.
    pub open spec fn same_config(&self, other: &Printer) -> bool {
        &&& self.width == other.width
        &&& self.group == other.group
        &&& self.numeric == other.numeric
        &&& self.max == other.max
    }

    /// Create a new row printer with width and group counts. The width must
    /// lie in `2..=4095` and the group must be `1..=width`; a bad width is
    /// reported first.
    pub fn new(width: usize, group: usize, numeric: Numeric) -> (r: Result<Printer, Error>)
        ensures
            r is Ok <==> (2 <= width <= 4095 && 1 <= group <= width),
            r matches Ok(p) ==> {
                &&& p.wf()
                &&& p.width == width
                &&& p.group == group
                &&& p.numeric == numeric
                &&& p.state.addr == 0
                &&& p.state.column == 0
                &&& p.state.row_bytes@ == Seq::<u8>::empty()
                &&& p.state.plain_table@ == Seq::<u8>::empty()
                &&& p.state.hex_group@ == Seq::<u8>::empty()
                &&& p.state.table_group@ == Seq::<u8>::empty()
                &&& p.state.hex@ == Seq::<char>::empty()
                &&& p.state.table@ == Seq::<char>::empty()
            },
            r matches Err(e) ==> (e is Width <==> (width <= 1 || width > 4095)),
            r matches Err(e) ==> (e is Grouping <==> (2 <= width <= 4095 && (group > width || group
                == 0))),
    {
        if width <= 1 || width > 4095 {
            Err(Error::Width)
        } else if group > width || group == 0 {
            Err(Error::Grouping)
        } else {
            proof {
                assert(padding_spec(group as int, width as int) <= 3 * width) by (nonlinear_arith)
                    requires
                        1 <= group <= width,
                ;
            }
            let max = padding(group, width);
            let p = Printer {
                width,
                group,
                numeric,
                max,
                state: PrinterState {
                    addr: 0,
                    column: 0,
                    hex: String::new(),
                    table: String::new(),
                    plain_hex: Vec::new(),
                    plain_table: Vec::new(),
                    hex_group: Vec::new(),
                    table_group: Vec::new(),
                    row_bytes: Ghost(Seq::empty()),
                },
            };
            proof {
                assert(p.state.plain_hex@ + p.state.hex_group@ =~= hex_area(
                    p.state.row_bytes@,
                    p.group as int,
                ));
            }
            Ok(p)
        }
    }

    /// Return the address formatted as four underscore-joined hex fields.
    pub fn pretty_addr(&self) -> (r: String)
        ensures
            encode_utf8(r@) == addr_area(self.state.addr),
    {
        let a = self.state.addr;
        let mut v: Vec<u8> = Vec::new();
        proof {
            assert(((a >> 48) & 0xffff) <= 0xffff && ((a >> 32) & 0xffff) <= 0xffff && ((a >> 16)
                & 0xffff) <= 0xffff && (a & 0xffff) <= 0xffff) by (bit_vector);
        }
        push_field(&mut v, (a >> 48) & 0xffff);
        v.push(0x5f);
        push_field(&mut v, (a >> 32) & 0xffff);
        v.push(0x5f);
        push_field(&mut v, (a >> 16) & 0xffff);
        v.push(0x5f);
        push_field(&mut v, a & 0xffff);
        proof {
            assert(v@ =~= addr_area(a));
            lemma_field_hex_valid((a >> 48) & 0xffff);
            lemma_field_hex_valid((a >> 32) & 0xffff);
            lemma_field_hex_valid((a >> 16) & 0xffff);
            lemma_field_hex_valid(a & 0xffff);
            assert(valid_utf8(seq![0x5fu8])) by {
                lemma_ascii_valid_utf8(seq![0x5fu8]);
            }
            let c1 = field_hex((a >> 48) & 0xffff) + seq![0x5fu8];
            assert(valid_utf8(c1));
            let c2 = c1 + field_hex((a >> 32) & 0xffff);
            assert(valid_utf8(c2));
            let c3 = c2 + seq![0x5fu8];
            assert(valid_utf8(c3));
            let c4 = c3 + field_hex((a >> 16) & 0xffff);
            assert(valid_utf8(c4));
            let c5 = c4 + seq![0x5fu8];
            assert(valid_utf8(c5));
            let c6 = c5 + field_hex(a & 0xffff);
            assert(valid_utf8(c6));
            assert(v@ == c6);
        }
        to_text(v.as_slice())
    }

    /// Colorize the formatted group fragments and close them: the pending
    /// fragments are styled for the group's kind and appended to the row
    /// buffers, and the unstyled bytes move along with them.
    pub fn colorize_group(&mut self, kind: Kind)
        requires
            old(self).buffers_ok(),
        ensures
            final(self).buffers_ok(),
            final(self).same_config(&*old(self)),
            final(self).state.addr == old(self).state.addr,
            final(self).state.column == old(self).state.column,
            final(self).state.row_bytes == old(self).state.row_bytes,
            final(self).state.plain_hex@ == old(self).state.plain_hex@ + old(
                self,
            ).state.hex_group@,
            final(self).state.plain_table@ == old(self).state.plain_table@ + old(
                self,
            ).state.table_group@,
            final(self).state.hex_group@ == Seq::<u8>::empty(),
            final(self).state.table_group@ == Seq::<u8>::empty(),
            exists|pre: Seq<char>, suf: Seq<char>|
                final(self).state.hex@ == old(self).state.hex@ + pre + decode_utf8(
                    old(self).state.hex_group@,
                ) + suf,
            exists|pre: Seq<char>, suf: Seq<char>|
                final(self).state.table@ == old(self).state.table@ + pre + decode_utf8(
                    old(self).state.table_group@,
                ) + suf,
    {
        proof {
            let whole = hex_area(self.state.row_bytes@, self.group as int);
            lemma_hex_area_ascii(self.state.row_bytes@, self.group as int);
            assert(forall|i: int|
                0 <= i < self.state.hex_group@.len() ==> self.state.hex_group@[i] == whole[
                self.state.plain_hex@.len() + i]);
            lemma_ascii_valid_utf8(self.state.hex_group@);
        }
        let hex_text = to_text(self.state.hex_group.as_slice());
        let table_text = to_text(self.state.table_group.as_slice());
        let styled_hex = match kind {
            Kind::Control => style_control(hex_text.as_str()),
            Kind::Printable => style_printable(hex_text.as_str()),
            Kind::Numeric => style_numeric(hex_text.as_str()),
            Kind::Graphemes => style_graphemes(hex_text.as_str()),
            Kind::Invalid => style_invalid(hex_text.as_str()),
        };
        let styled_table = match kind {
            Kind::Control => style_control(table_text.as_str()),
            Kind::Printable => style_printable(table_text.as_str()),
            Kind::Numeric => style_numeric(table_text.as_str()),
            Kind::Graphemes => style_graphemes(table_text.as_str()),
            Kind::Invalid => style_invalid(table_text.as_str()),
        };
        self.state.hex.append(styled_hex.as_str());
        self.state.table.append(styled_table.as_str());
        proof {
            vstd::utf8::encode_utf8_decode_utf8(hex_text@);
            vstd::utf8::encode_utf8_decode_utf8(table_text@);
            let (hp, hs) = choose|p: Seq<char>, s: Seq<char>| styled_hex@ == p + hex_text@ + s;
            assert(self.state.hex@ =~= old(self).state.hex@ + hp + decode_utf8(
                old(self).state.hex_group@,
            ) + hs);
            let (tp, ts) = choose|p: Seq<char>, s: Seq<char>| styled_table@ == p + table_text@ + s;
            assert(self.state.table@ =~= old(self).state.table@ + tp + decode_utf8(
                old(self).state.table_group@,
            ) + ts);
        }
        let mut pending_hex: Vec<u8> = Vec::new();
        core::mem::swap(&mut pending_hex, &mut self.state.hex_group);
        self.state.plain_hex.extend_from_slice(pending_hex.as_slice());
        let mut pending_table: Vec<u8> = Vec::new();
        core::mem::swap(&mut pending_table, &mut self.state.table_group);
        self.state.plain_table.extend_from_slice(pending_table.as_slice());
        proof {
            assert(self.state.plain_hex@ + self.state.hex_group@ =~= hex_area(
                self.state.row_bytes@,
                self.group as int,
            ));
            assert(self.state.plain_table@ == old(self).state.plain_table@ + old(
                self,
            ).state.table_group@);
            assert(valid_utf8(self.state.plain_table@));
            assert(self.state.table_group@ =~= Seq::<u8>::empty());
            assert(valid_utf8(self.state.table_group@)) by {
                lemma_ascii_valid_utf8(self.state.table_group@);
            }
        }
    }

    /// Flush the current row: emit one formatted line with the hex area padded
    /// to the full hex-area width and the table padded to `width` cells, reset
    /// the column, and advance the address by `width`.
    pub fn print_row(&mut self, out: &mut Vec<Row>)
        requires
            old(self).flush_ready(),
        ensures
            final(self).wf(),
            final(self).same_config(&*old(self)),
            final(out)@.len() == old(out)@.len() + 1,
            final(out)@.subrange(0, old(out)@.len() as int) == old(out)@,
            ({
                let r = final(out)@.last();
                &&& r.addr == old(self).state.addr
                &&& r.bytes@ == old(self).state.row_bytes@
                &&& encode_utf8(r.hex@) == hex_area(r.bytes@, old(self).group as int) + spaces(
                    old(self).max - padding_spec(
                        old(self).group as int,
                        old(self).state.column as int,
                    ),
                )
                &&& encode_utf8(r.table@) == old(self).state.plain_table@ + spaces(
                    old(self).width - old(self).state.column,
                )
                &&& exists|apre: Seq<char>, asuf: Seq<char>|
                    r.line@ == apre + decode_utf8(addr_area(old(self).state.addr)) + asuf + ":"@
                        + old(self).state.hex@ + decode_utf8(
                        spaces(
                            old(self).max - padding_spec(
                                old(self).group as int,
                                old(self).state.column as int,
                            ),
                        ),
                    ) + " | "@ + old(self).state.table@ + decode_utf8(
                        spaces(old(self).width - old(self).state.column),
                    ) + " |"@
            }),
            final(self).state.addr == vstd::wrapping::u64_specs::wrapping_add(
                old(self).state.addr,
                old(self).width as u64,
            ),
            final(self).state.column == 0,
            final(self).state.row_bytes@ == Seq::<u8>::empty(),
            final(self).state.plain_hex@ == Seq::<u8>::empty(),
            final(self).state.plain_table@ == Seq::<u8>::empty(),
            final(self).state.hex_group@ == Seq::<u8>::empty(),
            final(self).state.table_group@ == Seq::<u8>::empty(),
            final(self).state.hex@ == Seq::<char>::empty(),
            final(self).state.table@ == Seq::<char>::empty(),
    {
        proof {
            lemma_padding_counts(self.state.row_bytes@, self.group as int);
            vstd::arithmetic::div_mod::lemma_div_is_ordered(
                self.state.column + self.group - 1,
                self.width + self.group - 1,
                self.group as int,
            );
        }
        let used = padding(self.group, self.state.column);
        let hex_pad = self.max - used;
        let mut hexbytes: Vec<u8> = Vec::new();
        hexbytes.extend_from_slice(self.state.plain_hex.as_slice());
        let mut padv = make_spaces(hex_pad);
        hexbytes.append(&mut padv);
        proof {
            assert(self.state.plain_hex@ + self.state.hex_group@ == self.state.plain_hex@);
            assert(self.state.plain_hex@ == hex_area(self.state.row_bytes@, self.group as int));
            lemma_hex_area_ascii(self.state.row_bytes@, self.group as int);
            assert(forall|i: int| 0 <= i < hexbytes@.len() ==> hexbytes@[i] < 0x80);
            lemma_ascii_valid_utf8(hexbytes@);
        }
        let hex_full = to_text(hexbytes.as_slice());
        let mut tbytes: Vec<u8> = Vec::new();
        tbytes.extend_from_slice(self.state.plain_table.as_slice());
        let table_pad = self.width - self.state.column;
        let mut padt = make_spaces(table_pad);
        proof {
            assert(forall|i: int| 0 <= i < padt@.len() ==> padt@[i] < 0x80);
            lemma_ascii_valid_utf8(padt@);
        }
        tbytes.append(&mut padt);
        proof {
            assert(tbytes@ == self.state.plain_table@ + spaces(table_pad as int));
            assert(valid_utf8(tbytes@));
        }
        let table_full = to_text(tbytes.as_slice());
        let addr_text = self.pretty_addr();
        let mut line = style_addr(addr_text.as_str());
        let ghost styled_pair = choose|p: Seq<char>, s: Seq<char>| line@ == p + addr_text@ + s;
        proof {
            vstd::utf8::encode_utf8_decode_utf8(addr_text@);
            assert(addr_text@ == decode_utf8(addr_area(old(self).state.addr)));
        }
        line.append(":");
        line.append(self.state.hex.as_str());
        let sp1 = make_spaces(hex_pad);
        proof {
            assert(forall|i: int| 0 <= i < sp1@.len() ==> sp1@[i] < 0x80);
            lemma_ascii_valid_utf8(sp1@);
        }
        let pad_text = to_text(sp1.as_slice());
        line.append(pad_text.as_str());
        line.append(" | ");
        line.append(self.state.table.as_str());
        let sp2 = make_spaces(table_pad);
        proof {
            assert(forall|i: int| 0 <= i < sp2@.len() ==> sp2@[i] < 0x80);
            lemma_ascii_valid_utf8(sp2@);
        }
        let pad2_text = to_text(sp2.as_slice());
        line.append(pad2_text.as_str());
        line.append(" |");
        proof {
            vstd::utf8::encode_utf8_decode_utf8(pad_text@);
            vstd::utf8::encode_utf8_decode_utf8(pad2_text@);
            assert(pad_text@ == decode_utf8(
                spaces(
                    old(self).max - padding_spec(
                        old(self).group as int,
                        old(self).state.column as int,
                    ),
                ),
            ));
            assert(pad2_text@ == decode_utf8(spaces(old(self).width - old(self).state.column)));
            assert(line@ =~= styled_pair.0 + decode_utf8(addr_area(old(self).state.addr))
                + styled_pair.1 + ":"@ + old(self).state.hex@ + decode_utf8(
                spaces(
                    old(self).max - padding_spec(
                        old(self).group as int,
                        old(self).state.column as int,
                    ),
                ),
            ) + " | "@ + old(self).state.table@ + decode_utf8(
                spaces(old(self).width - old(self).state.column),
            ) + " |"@);
        }
        let row = Row {
            addr: self.state.addr,
            hex: hex_full,
            table: table_full,
            line,
            bytes: Ghost(self.state.row_bytes@),
        };
        out.push(row);
        self.state.column = 0;
        self.state.addr = self.state.addr.wrapping_add(self.width as u64);
        self.state.hex = String::new();
        self.state.table = String::new();
        self.state.plain_hex.clear();
        self.state.plain_table.clear();
        proof {
            self.state.row_bytes@ = Seq::<u8>::empty();
        }
        proof {
            assert(out@.subrange(0, old(out)@.len() as int) =~= old(out)@);
            assert(self.state.plain_hex@ + self.state.hex_group@ =~= hex_area(
                self.state.row_bytes@,
                self.group as int,
            ));
        }
    }
}

impl Printer {
    /// Consume one byte of a classified group: write its group separator and
    /// hex pair, its table cell, and flush the row when the column fills.
    fn push_byte(&mut self, group: &Group<'_>, i: usize, out: &mut Vec<Row>)
        requires
            old(self).wf(),
            group.wf(old(self).numeric),
            i < group.span.bytes@.len(),
        ensures
            final(self).wf(),
            final(self).same_config(&*old(self)),
            ({
                let w = old(self).width as int;
                let g = old(self).group as int;
                let col = old(self).state.column as int;
                let b = group.span.bytes@[i as int];
                let rb_new = old(self).state.row_bytes@.push(b);
                let cell = group_cell(group.kind, group_cluster(*group), b, i as int, col, w);
                if col + 1 == w {
                    &&& final(out)@.len() == old(out)@.len() + 1
                    &&& final(out)@.subrange(0, old(out)@.len() as int) == old(out)@
                    &&& ({
                        let r = final(out)@.last();
                        &&& r.bytes@ == rb_new
                        &&& encode_utf8(r.hex@) == hex_area(rb_new, g)
                        &&& encode_utf8(r.table@) == old(self).state.plain_table@ + old(
                            self,
                        ).state.table_group@ + cell
                        &&& r.addr == old(self).state.addr
                    })
                    &&& final(self).state.column == 0
                    &&& final(self).state.row_bytes@ == Seq::<u8>::empty()
                    &&& final(self).state.addr == vstd::wrapping::u64_specs::wrapping_add(
                        old(self).state.addr,
                        w as u64,
                    )
                    &&& final(self).state.plain_table@ == Seq::<u8>::empty()
                    &&& final(self).state.table_group@ == Seq::<u8>::empty()
                    &&& final(self).state.hex_group@ == Seq::<u8>::empty()
                } else {
                    &&& final(out)@ == old(out)@
                    &&& final(self).state.column == col + 1
                    &&& final(self).state.row_bytes@ == rb_new
                    &&& final(self).state.addr == old(self).state.addr
                    &&& final(self).state.plain_table@ == old(self).state.plain_table@
                    &&& final(self).state.table_group@ == old(self).state.table_group@ + cell
                }
            }),
    {
        let ghost w = self.width as int;
        let ghost g = self.group as int;
        let ghost col = self.state.column as int;
        let ghost rb_top = self.state.row_bytes@;
        let ghost cl = group_cluster(*group);
        let b = group.span.bytes[i];
        if self.state.column % self.group == 0 {
            self.state.hex_group.push(0x20);
        }
        self.state.hex_group.push(to_hex_digit(b / 16));
        self.state.hex_group.push(to_hex_digit(b % 16));
        let ghost tg_top = self.state.table_group@;
        match group.kind {
            Kind::Printable | Kind::Numeric => {
                self.state.table_group.push(b);
                proof {
                    assert(b < 0x80);
                    lemma_ascii_valid_utf8(seq![b]);
                    assert(self.state.table_group@ == tg_top + seq![b]);
                }
            },
            Kind::Control | Kind::Invalid => {
                self.state.table_group.push(0x2e);
                proof {
                    lemma_ascii_valid_utf8(seq![0x2eu8]);
                    assert(self.state.table_group@ == tg_top + seq![0x2eu8]);
                }
            },
            Kind::Graphemes => {
                let c = group.span.as_char(i, self.state.column, self.width);
                match c {
                    Char::Cluster(cluster) => {
                        self.state.table_group.extend_from_slice(cluster.as_bytes());
                        proof {
                            vstd::utf8::encode_utf8_valid_utf8(cluster@);
                            assert(self.state.table_group@ == tg_top + encode_utf8(cl));
                        }
                    },
                    Char::Space => {
                        self.state.table_group.push(0x20);
                        proof {
                            lemma_ascii_valid_utf8(seq![0x20u8]);
                            assert(self.state.table_group@ == tg_top + seq![0x20u8]);
                        }
                    },
                    Char::Skip => {
                        proof {
                            assert(self.state.table_group@ =~= tg_top + Seq::<u8>::empty());
                        }
                    },
                }
                proof {
                    assert(self.state.table_group@ == tg_top + cluster_cell(cl, i as int, col, w));
                }
            },
        }
        proof {
            assert(self.state.table_group@ == tg_top + group_cell(
                group.kind,
                cl,
                group.span.bytes@[i as int],
                i as int,
                col,
                w,
            ));
            assert(valid_utf8(self.state.table_group@));
        }
        self.state.row_bytes = Ghost(self.state.row_bytes@.push(b));
        proof {
            let rb_new = self.state.row_bytes@;
            assert(rb_new.drop_last() =~= rb_top);
            assert(hex_area(rb_new, g) == hex_area(rb_top, g) + crate::hexfmt::sep_if(col, g)
                + crate::hexfmt::hex_pair(b));
            assert(self.state.plain_hex@ + self.state.hex_group@ =~= hex_area(rb_new, g));
        }
        self.state.column = self.state.column + 1;
        if self.state.column == self.width {
            let ghost plain_before = self.state.plain_table@ + self.state.table_group@;
            self.colorize_group(group.kind);
            proof {
                lemma_padding_counts(self.state.row_bytes@, g);
            }
            self.print_row(out);
            proof {
                let r = out@.last();
                assert(spaces(0) =~= Seq::<u8>::empty());
                assert(encode_utf8(r.hex@) =~= hex_area(r.bytes@, g));
                assert(encode_utf8(r.table@) =~= plain_before);
                assert(plain_before =~= old(self).state.plain_table@ + old(
                    self,
                ).state.table_group@ + group_cell(
                    group.kind,
                    cl,
                    group.span.bytes@[i as int],
                    i as int,
                    col,
                    w,
                ));
            }
        }
    }

    /// Format a classified group of bytes: append each byte's grouped hex pair
    /// and table cell to the pending fragments, flushing a full row whenever
    /// the column reaches the configured width, and close the group's styled
    /// fragment at the end.
    #[verifier::rlimit(100)]
    pub fn format_group(&mut self, group: Group<'_>, out: &mut Vec<Row>)
        requires
            old(self).wf(),
            group.wf(old(self).numeric),
            old(self).state.hex_group@ == Seq::<u8>::empty(),
            old(self).state.table_group@ == Seq::<u8>::empty(),
        ensures
            final(self).wf(),
            final(self).same_config(&*old(self)),
            final(self).state.hex_group@ == Seq::<u8>::empty(),
            final(self).state.table_group@ == Seq::<u8>::empty(),
            ({
                let gb = group.span.bytes@;
                let w = old(self).width as int;
                let g = old(self).group as int;
                let c0 = old(self).state.column as int;
                let stream = old(self).state.row_bytes@ + gb;
                let cnt = (c0 + gb.len()) / w;
                let base = old(out)@.len() as int;
                &&& final(out)@.len() == base + cnt
                &&& final(out)@.subrange(0, base) == old(out)@
                &&& forall|k: int|
                    0 <= k < cnt ==> {
                        let r = #[trigger] final(out)@[base + k];
                        &&& r.bytes@ == stream.subrange(k * w, (k + 1) * w)
                        &&& encode_utf8(r.hex@) == hex_area(r.bytes@, g)
                        &&& r.addr == (if k == 0 {
                            old(self).state.addr
                        } else {
                            vstd::wrapping::u64_specs::wrapping_add(
                                final(out)@[base + k - 1].addr,
                                w as u64,
                            )
                        })
                    }
                &&& final(self).state.row_bytes@ == stream.skip(cnt * w)
                &&& final(self).state.addr == (if cnt == 0 {
                    old(self).state.addr
                } else {
                    vstd::wrapping::u64_specs::wrapping_add(
                        final(out)@[base + cnt - 1].addr,
                        w as u64,
                    )
                })
                &&& ({
                    let new_rows = final(out)@.subrange(base, base + cnt);
                    let tbl = final(self).state.plain_table@;
                    old(self).state.plain_table@ + table_ext(
                        group.kind,
                        group_cluster(group),
                        gb,
                        c0,
                        w,
                    ) == rows_tables(new_rows) + tbl
                })
            }),
    {
        let ghost gb = group.span.bytes@;
        let ghost w = self.width as int;
        let ghost g = self.group as int;
        let ghost c0 = self.state.column as int;
        let ghost stream = self.state.row_bytes@ + gb;
        let ghost base = out@.len() as int;
        let ghost cl = group_cluster(group);
        let ghost told = self.state.plain_table@;
        let n = group.span.bytes.len();
        let mut i: usize = 0;
        proof {
            assert(gb.take(0) =~= Seq::<u8>::empty());
            assert(table_ext(group.kind, cl, gb.take(0), c0, w) =~= Seq::<u8>::empty());
            assert(out@.subrange(base, base) =~= Seq::<Row>::empty());
            assert(told + table_ext(group.kind, cl, gb.take(0), c0, w) =~= rows_tables(
                out@.subrange(base, base),
            ) + self.state.plain_table@ + self.state.table_group@);
            assert((old(self).state.row_bytes@ + gb.take(0)).skip(0) =~= self.state.row_bytes@);
            vstd::arithmetic::div_mod::lemma_fundamental_div_mod_converse(c0, w, 0, c0);
            assert(out@.subrange(0, base) =~= old(out)@);
        }
        while i < n
            invariant
                self.wf(),
                self.same_config(&*old(self)),
                group.wf(self.numeric),
                i <= n,
                n == gb.len(),
                gb == group.span.bytes@,
                w == self.width as int,
                g == self.group as int,
                c0 == old(self).state.column as int,
                c0 < w,
                c0 == old(self).state.row_bytes@.len(),
                stream == old(self).state.row_bytes@ + gb,
                base == old(out)@.len() as int,
                cl == group_cluster(group),
                told == old(self).state.plain_table@,
                0 <= (c0 + i as int) / w,
                self.state.column as int == (c0 + i as int) % w,
                (c0 + i as int) / w * w + self.state.column as int == c0 + i as int,
                self.state.row_bytes@ == (old(self).state.row_bytes@ + gb.take(i as int)).skip(
                    ((c0 + i as int) / w) * w,
                ),
                out@.len() == base + (c0 + i as int) / w,
                out@.subrange(0, base) == old(out)@,
                forall|k: int|
                    0 <= k < (c0 + i as int) / w ==> {
                        let r = #[trigger] out@[base + k];
                        &&& r.bytes@ == stream.subrange(k * w, (k + 1) * w)
                        &&& encode_utf8(r.hex@) == hex_area(r.bytes@, g)
                        &&& r.addr == (if k == 0 {
                            old(self).state.addr
                        } else {
                            vstd::wrapping::u64_specs::wrapping_add(
                                out@[base + k - 1].addr,
                                w as u64,
                            )
                        })
                    },
                self.state.addr == (if (c0 + i as int) / w == 0 {
                    old(self).state.addr
                } else {
                    vstd::wrapping::u64_specs::wrapping_add(
                        out@[base + (c0 + i as int) / w - 1].addr,
                        w as u64,
                    )
                }),
                told + table_ext(group.kind, cl, gb.take(i as int), c0, w) == rows_tables(
                    out@.subrange(base, base + (c0 + i as int) / w),
                ) + self.state.plain_table@ + self.state.table_group@,
                self.state.column == 0 ==> (self.state.hex_group@ == Seq::<u8>::empty()
                    && self.state.table_group@ == Seq::<u8>::empty()),
            decreases n - i,
        {
            let ghost q = (c0 + i as int) / w;
            let ghost col = self.state.column as int;
            let ghost rows_before = out@;
            let ghost plain_top = self.state.plain_table@;
            let ghost tg_top = self.state.table_group@;
            let ghost rb_top = self.state.row_bytes@;
            self.push_byte(&group, i, out);
            proof {
                let b = gb[i as int];
                let cell = group_cell(group.kind, cl, b, i as int, col, w);
                let exti = table_ext(group.kind, cl, gb.take(i as int), c0, w);
                assert(gb.take(i + 1).drop_last() =~= gb.take(i as int));
                assert(gb.take(i + 1).last() == b);
                assert(table_ext(group.kind, cl, gb.take(i + 1), c0, w) == exti + cell);
                assert(told + (exti + cell) =~= (told + exti) + cell);
                let prev_stream = old(self).state.row_bytes@ + gb.take(i as int);
                assert(prev_stream.len() == c0 + i as int);
                assert(old(self).state.row_bytes@ + gb.take(i + 1) =~= prev_stream + seq![b]);
                assert((prev_stream + seq![b]).skip(q * w) =~= prev_stream.skip(q * w) + seq![b]);
                assert(rb_top.push(b) =~= (old(self).state.row_bytes@ + gb.take(i + 1)).skip(
                    q * w,
                ));
                if col + 1 == w {
                    assert((q + 1) * w == q * w + w) by (nonlinear_arith);
                    vstd::arithmetic::div_mod::lemma_fundamental_div_mod_converse(
                        c0 + i as int + 1,
                        w,
                        q + 1,
                        0,
                    );
                    let r = out@.last();
                    assert(out@ =~= rows_before.push(r));
                    assert(r.bytes@ =~= stream.subrange(q * w, (q + 1) * w)) by {
                        assert(r.bytes@ == rb_top.push(b));
                        assert(stream.subrange(q * w, (q + 1) * w) =~= (old(
                            self,
                        ).state.row_bytes@ + gb.take(i + 1)).skip(q * w));
                    }
                    assert(self.state.row_bytes@ =~= (old(self).state.row_bytes@ + gb.take(
                        i + 1,
                    )).skip((q + 1) * w));
                    assert(out@.subrange(0, base) =~= old(out)@);
                    assert forall|k: int| 0 <= k < q implies #[trigger] out@[base + k]
                        == rows_before[base + k] by {
                        assert(out@.subrange(0, rows_before.len() as int) =~= rows_before);
                        assert(out@.subrange(0, rows_before.len() as int)[base + k] == out@[base
                            + k]);
                    }
                    assert(out@[base + q] == r);
                    assert(out@.subrange(base, base + q + 1) =~= out@.subrange(
                        base,
                        base + q,
                    ).push(r));
                    assert(out@.subrange(base, base + q) =~= rows_before.subrange(base, base + q));
                    assert(rows_tables(out@.subrange(base, base + q + 1)) == rows_tables(
                        out@.subrange(base, base + q),
                    ) + encode_utf8(r.table@)) by {
                        assert(out@.subrange(base, base + q + 1).drop_last() =~= out@.subrange(
                            base,
                            base + q,
                        ));
                    }
                    assert(encode_utf8(r.table@) == plain_top + tg_top + cell);
                    assert(told + table_ext(group.kind, cl, gb.take(i + 1), c0, w) =~= rows_tables(
                        out@.subrange(base, base + q + 1),
                    ) + self.state.plain_table@ + self.state.table_group@);
                } else {
                    vstd::arithmetic::div_mod::lemma_fundamental_div_mod_converse(
                        c0 + i as int + 1,
                        w,
                        q,
                        col + 1,
                    );
                    assert((rows_tables(out@.subrange(base, base + q)) + plain_top + tg_top)
                        + cell =~= rows_tables(out@.subrange(base, base + q)) + plain_top + (tg_top
                        + cell));
                    assert(told + table_ext(group.kind, cl, gb.take(i + 1), c0, w) == rows_tables(
                        out@.subrange(base, base + q),
                    ) + self.state.plain_table@ + self.state.table_group@);
                }
            }
            i = i + 1;
        }
        proof {
            assert(gb.take(n as int) =~= gb);
        }
        if self.state.column > 0 {
            let ghost before = self.state.plain_table@ + self.state.table_group@;
            self.colorize_group(group.kind);
            proof {
                assert(self.state.plain_table@ + self.state.table_group@ =~= before);
            }
        }
        proof {
            let cnt = (c0 + gb.len()) / w;
            assert(out@.subrange(0, base) =~= old(out)@);
            assert(told + table_ext(group.kind, cl, gb, c0, w) =~= rows_tables(
                out@.subrange(base, base + cnt),
            ) + self.state.plain_table@);
        }
    }
}

impl Printer {
    /// Classify and consume one buffer of bytes, appending every completed row
    /// to `out`. Bytes left over from an incomplete row stay pending in the
    /// printer, so a stream can be fed buffer by buffer; classification starts
    /// afresh in each buffer.
    #[verifier::rlimit(100)]
    pub fn process_chunk(&mut self, bytes: &[u8], out: &mut Vec<Row>)
        requires
            old(self).wf(),
            old(self).state.hex_group@ == Seq::<u8>::empty(),
            old(self).state.table_group@ == Seq::<u8>::empty(),
        ensures
            final(self).wf(),
            final(self).same_config(&*old(self)),
            final(self).state.hex_group@ == Seq::<u8>::empty(),
            final(self).state.table_group@ == Seq::<u8>::empty(),
            ({
                let w = old(self).width as int;
                let g = old(self).group as int;
                let stream = old(self).state.row_bytes@ + bytes@;
                let cnt = stream.len() as int / w;
                let base = old(out)@.len() as int;
                &&& final(out)@.len() == base + cnt
                &&& final(out)@.subrange(0, base) == old(out)@
                &&& forall|k: int|
                    0 <= k < cnt ==> {
                        let r = #[trigger] final(out)@[base + k];
                        &&& r.bytes@ == stream.subrange(k * w, (k + 1) * w)
                        &&& encode_utf8(r.hex@) == hex_area(r.bytes@, g)
                        &&& r.addr == (if k == 0 {
                            old(self).state.addr
                        } else {
                            vstd::wrapping::u64_specs::wrapping_add(
                                final(out)@[base + k - 1].addr,
                                w as u64,
                            )
                        })
                    }
                &&& final(self).state.row_bytes@ == stream.skip(cnt * w)
                &&& final(self).state.column as int == stream.len() as int % w
                &&& final(self).state.addr == (if cnt == 0 {
                    old(self).state.addr
                } else {
                    vstd::wrapping::u64_specs::wrapping_add(
                        final(out)@[base + cnt - 1].addr,
                        w as u64,
                    )
                })
                &&& ({
                    let tbl = final(self).state.plain_table@;
                    rows_tables(final(out)@.subrange(base, base + cnt)) + tbl == old(
                        self,
                    ).state.plain_table@ + stream_table(
                        bytes@,
                        old(self).numeric,
                        old(self).state.column as int,
                        w,
                    )
                })
            }),
    {
        let ghost w = self.width as int;
        let ghost g = self.group as int;
        let ghost c0 = self.state.column as int;
        let ghost rb0 = self.state.row_bytes@;
        let ghost stream = rb0 + bytes@;
        let ghost base = out@.len() as int;
        let ghost num0 = self.numeric;
        let ghost told = self.state.plain_table@;
        let mut start: usize = 0;
        proof {
            assert(rb0 + bytes@.take(0) =~= rb0);
            assert(rb0.skip(0) =~= rb0);
            vstd::arithmetic::div_mod::lemma_fundamental_div_mod_converse(c0, w, 0, c0);
            assert(out@.subrange(0, base) =~= old(out)@);
            assert(bytes@.skip(0) =~= bytes@);
            assert(out@.subrange(base, base) =~= Seq::<Row>::empty());
            assert(told + stream_table(bytes@, num0, c0, w) =~= rows_tables(
                out@.subrange(base, base),
            ) + self.state.plain_table@ + stream_table(bytes@, num0, c0, w));
        }
        while start < bytes.len()
            invariant
                self.wf(),
                self.same_config(&*old(self)),
                self.state.hex_group@ == Seq::<u8>::empty(),
                self.state.table_group@ == Seq::<u8>::empty(),
                start <= bytes@.len(),
                w == self.width as int,
                g == self.group as int,
                c0 == old(self).state.column as int,
                c0 < w,
                rb0 == old(self).state.row_bytes@,
                c0 == rb0.len(),
                stream == rb0 + bytes@,
                base == old(out)@.len() as int,
                0 <= (c0 + start as int) / w,
                self.state.column as int == (c0 + start as int) % w,
                (c0 + start as int) / w * w + self.state.column as int == c0 + start as int,
                self.state.row_bytes@ == (rb0 + bytes@.take(start as int)).skip(
                    ((c0 + start as int) / w) * w,
                ),
                out@.len() == base + (c0 + start as int) / w,
                out@.subrange(0, base) == old(out)@,
                forall|k: int|
                    0 <= k < (c0 + start as int) / w ==> {
                        let r = #[trigger] out@[base + k];
                        &&& r.bytes@ == stream.subrange(k * w, (k + 1) * w)
                        &&& encode_utf8(r.hex@) == hex_area(r.bytes@, g)
                        &&& r.addr == (if k == 0 {
                            old(self).state.addr
                        } else {
                            vstd::wrapping::u64_specs::wrapping_add(
                                out@[base + k - 1].addr,
                                w as u64,
                            )
                        })
                    },
                self.state.addr == (if (c0 + start as int) / w == 0 {
                    old(self).state.addr
                } else {
                    vstd::wrapping::u64_specs::wrapping_add(
                        out@[base + (c0 + start as int) / w - 1].addr,
                        w as u64,
                    )
                }),
                num0 == old(self).numeric,
                told == old(self).state.plain_table@,
                told + stream_table(bytes@, num0, c0, w) == rows_tables(
                    out@.subrange(base, base + (c0 + start as int) / w),
                ) + self.state.plain_table@ + stream_table(
                    bytes@.skip(start as int),
                    num0,
                    self.state.column as int,
                    w,
                ),
            decreases bytes@.len() - start,
        {
            let ghost q = (c0 + start as int) / w;
            let ghost col = self.state.column as int;
            let ghost taken_old = rb0 + bytes@.take(start as int);
            let ghost rows_before = out@;
            let ghost plain_top = self.state.plain_table@;
            let sub = vstd::slice::slice_subrange(bytes, start, bytes.len());
            let group = Group::gather(sub, self.numeric);
            let glen = group.span.bytes.len();
            let ghost gb = group.span.bytes@;
            let ghost rest = sub@;
            let ghost gkind = group.kind;
            let ghost gcl = group_cluster(group);
            proof {
                assert(gb =~= bytes@.subrange(start as int, start as int + glen));
                assert(self.state.row_bytes@ + gb =~= (rb0 + bytes@.take(start as int + glen)).skip(
                    q * w,
                ));
                assert(rest =~= bytes@.skip(start as int));
                assert(gb =~= rest.take(glen as int));
                assert(glen as int == gather_len(rest, num0));
                assert(gkind == classify_spec(rest, num0));
                assert(gcl == gather_cluster(rest, num0)) by {
                    if gkind is Graphemes {
                        assert(group.span.parsed->0@ == gather_cluster(rest, num0));
                    }
                }
                assert(stream_table(rest, num0, col, w) == table_ext(
                    gkind,
                    gcl,
                    rest.take(glen as int),
                    col,
                    w,
                ) + stream_table(rest.skip(glen as int), num0, (col + glen as int) % w, w));
            }
            self.format_group(group, out);
            start = start + glen;
            proof {
                let taken = rb0 + bytes@.take(start as int);
                assert(taken.len() == c0 + start);
                let lcnt = (col + glen as int) / w;
                vstd::arithmetic::div_mod::lemma_hoist_over_denominator(
                    col + glen as int,
                    q,
                    w as nat,
                );
                assert((col + glen as int) + q * w == c0 + start as int);
                assert(lcnt + q == (c0 + start as int) / w);
                assert((c0 + start as int) % w == (col + glen as int) % w) by {
                    vstd::arithmetic::div_mod::lemma_fundamental_div_mod(
                        col + glen as int,
                        w,
                    );
                    assert((q + lcnt) * w == q * w + lcnt * w) by (nonlinear_arith);
                    assert(w * lcnt == lcnt * w) by (nonlinear_arith);
                    vstd::arithmetic::div_mod::lemma_fundamental_div_mod_converse(
                        c0 + start as int,
                        w,
                        q + lcnt,
                        (col + glen as int) % w,
                    );
                }
                assert(self.state.row_bytes@ =~= taken.skip(((c0 + start as int) / w) * w)) by {
                    let local = taken.skip(q * w);
                    assert(self.state.row_bytes@ == local.skip(lcnt * w));
                    assert((q + lcnt) * w == q * w + lcnt * w) by (nonlinear_arith);
                    vstd::arithmetic::div_mod::lemma_div_pos_is_pos(col + glen as int, w);
                    vstd::arithmetic::div_mod::lemma_fundamental_div_mod(col + glen as int, w);
                    assert(0 <= q * w && 0 <= lcnt * w && lcnt * w <= col + glen as int) by (nonlinear_arith)
                        requires
                            0 <= q,
                            0 <= lcnt,
                            w >= 1,
                            col + glen as int == w * lcnt + (col + glen as int) % w,
                            0 <= (col + glen as int) % w,
                    ;
                    assert(local.skip(lcnt * w) =~= taken.skip((q + lcnt) * w));
                }
                assert(self.state.column as int == (c0 + start as int) % w) by {
                    assert(self.state.column == self.state.row_bytes@.len());
                    assert(w * (q + lcnt) == (q + lcnt) * w) by (nonlinear_arith);
                    vstd::arithmetic::div_mod::lemma_fundamental_div_mod(c0 + start as int, w);
                }
                assert((c0 + start as int) / w * w + self.state.column as int == c0 + start as int)
                    by {
                    assert(w * (q + lcnt) == (q + lcnt) * w) by (nonlinear_arith);
                    vstd::arithmetic::div_mod::lemma_fundamental_div_mod(c0 + start as int, w);
                }
                assert(out@.subrange(0, base) =~= old(out)@) by {
                    assert(out@.subrange(0, rows_before.len() as int) =~= rows_before);
                    assert(forall|j: int|
                        0 <= j < base ==> out@.subrange(0, rows_before.len() as int)[j]
                            == #[trigger] out@[j]);
                    assert(out@.subrange(0, base) =~= rows_before.subrange(0, base));
                }
                assert forall|k: int| 0 <= k < q implies #[trigger] out@[base + k] == rows_before[
                    base + k] by {
                    assert(out@.subrange(0, rows_before.len() as int) =~= rows_before);
                    assert(out@.subrange(0, rows_before.len() as int)[base + k] == out@[base + k]);
                }
                assert forall|k: int| q <= k < q + lcnt implies {
                    let r = #[trigger] out@[base + k];
                    &&& r.bytes@ == stream.subrange(k * w, (k + 1) * w)
                    &&& encode_utf8(r.hex@) == hex_area(r.bytes@, g)
                    &&& r.addr == (if k == 0 {
                        old(self).state.addr
                    } else {
                        vstd::wrapping::u64_specs::wrapping_add(out@[base + k - 1].addr, w as u64)
                    })
                } by {
                    let kp = k - q;
                    let local_stream = taken_old.skip(q * w) + gb;
                    assert(out@[(base + q) + kp].bytes@ == local_stream.subrange(
                        kp * w,
                        (kp + 1) * w,
                    ));
                    assert(local_stream =~= taken.skip(q * w));
                    assert((q + kp) * w == q * w + kp * w) by (nonlinear_arith);
                    assert((q + kp + 1) * w == q * w + (kp + 1) * w) by (nonlinear_arith);
                    vstd::arithmetic::div_mod::lemma_fundamental_div_mod(col + glen as int, w);
                    assert(0 <= q * w && 0 <= kp * w && kp * w <= (kp + 1) * w && (kp + 1) * w
                        <= lcnt * w && lcnt * w <= col + glen as int) by (nonlinear_arith)
                        requires
                            0 <= q,
                            0 <= kp,
                            kp + 1 <= lcnt,
                            w >= 1,
                            col + glen as int == w * lcnt + (col + glen as int) % w,
                            0 <= (col + glen as int) % w,
                    ;
                    assert(taken.skip(q * w).subrange(kp * w, (kp + 1) * w) =~= taken.subrange(
                        (q + kp) * w,
                        (q + kp + 1) * w,
                    ));
                    assert(taken.subrange(k * w, (k + 1) * w) =~= stream.subrange(
                        k * w,
                        (k + 1) * w,
                    ));
                }
                let newq = (c0 + start as int) / w;
                assert(bytes@.skip(start as int) =~= rest.skip(glen as int));
                assert(out@.subrange(base, base + newq) =~= out@.subrange(base, base + q)
                    + out@.subrange(base + q, base + newq));
                lemma_rows_tables_concat(
                    out@.subrange(base, base + q),
                    out@.subrange(base + q, base + newq),
                );
                assert(out@.subrange(base, base + q) =~= rows_before.subrange(base, base + q));
                assert(plain_top + table_ext(gkind, gcl, gb, col, w) == rows_tables(
                    out@.subrange(base + q, base + newq),
                ) + self.state.plain_table@);
                let te = table_ext(gkind, gcl, gb, col, w);
                let st_next = stream_table(
                    bytes@.skip(start as int),
                    num0,
                    self.state.column as int,
                    w,
                );
                assert(stream_table(rest.skip(glen as int), num0, (col + glen as int) % w, w)
                    == st_next);
                assert(stream_table(rest, num0, col, w) == te + st_next);
                assert(told + stream_table(bytes@, num0, c0, w) =~= (rows_tables(
                    rows_before.subrange(base, base + q),
                ) + plain_top) + (te + st_next));
                assert(rows_tables(out@.subrange(base, base + newq)) == rows_tables(
                    out@.subrange(base, base + q),
                ) + rows_tables(out@.subrange(base + q, base + newq)));
                let rt_q = rows_tables(out@.subrange(base, base + q));
                let rt_l = rows_tables(out@.subrange(base + q, base + newq));
                let plain_new = self.state.plain_table@;
                assert(rt_q == rows_tables(rows_before.subrange(base, base + q)));
                assert(rt_l + plain_new == plain_top + te);
                assert((rt_q + plain_top) + (te + st_next) =~= ((rt_q + rt_l) + plain_new)
                    + st_next) by {
                    assert((rt_q + plain_top) + (te + st_next) =~= (rt_q + (plain_top + te))
                        + st_next);
                    assert(rt_q + (plain_top + te) =~= rt_q + (rt_l + plain_new));
                    assert(rt_q + (rt_l + plain_new) =~= (rt_q + rt_l) + plain_new);
                }
                assert(told + stream_table(bytes@, num0, c0, w) == ((rt_q + rt_l) + plain_new)
                    + st_next);
                assert(rows_tables(out@.subrange(base, base + newq)) + plain_new + st_next == ((
                rt_q + rt_l) + plain_new) + st_next);
            }
        }
        proof {
            assert(bytes@.take(bytes@.len() as int) =~= bytes@);
            assert(stream.len() == c0 + bytes@.len());
            assert(bytes@.skip(bytes@.len() as int) =~= Seq::<u8>::empty());
            assert(stream_table(Seq::<u8>::empty(), num0, self.state.column as int, w)
                == Seq::<u8>::empty());
            assert(rows_tables(out@.subrange(base, base + (c0 + bytes@.len()) / w))
                + self.state.plain_table@ =~= told + stream_table(bytes@, num0, c0, w));
        }
    }

    /// Flush the final partial row, if any bytes of one are pending.
    pub fn finish(&mut self, out: &mut Vec<Row>)
        requires
            old(self).wf(),
            old(self).state.hex_group@ == Seq::<u8>::empty(),
            old(self).state.table_group@ == Seq::<u8>::empty(),
        ensures
            final(self).wf(),
            final(self).same_config(&*old(self)),
            final(self).state.column == 0,
            final(self).state.row_bytes@ == Seq::<u8>::empty(),
            final(self).state.hex_group@ == Seq::<u8>::empty(),
            final(self).state.table_group@ == Seq::<u8>::empty(),
            old(self).state.column == 0 ==> (final(out)@ == old(out)@ && final(self).state.addr
                == old(self).state.addr && final(self).state.plain_table@ == old(
                self,
            ).state.plain_table@),
            old(self).state.column > 0 ==> final(self).state.plain_table@ == Seq::<u8>::empty(),
            old(self).state.column > 0 ==> {
                &&& final(out)@.len() == old(out)@.len() + 1
                &&& final(out)@.subrange(0, old(out)@.len() as int) == old(out)@
                &&& ({
                    let r = final(out)@.last();
                    &&& r.bytes@ == old(self).state.row_bytes@
                    &&& encode_utf8(r.hex@) == hex_area(r.bytes@, old(self).group as int) + spaces(
                        old(self).max - padding_spec(
                            old(self).group as int,
                            old(self).state.column as int,
                        ),
                    )
                    &&& encode_utf8(r.table@) == old(self).state.plain_table@ + spaces(
                        old(self).width - old(self).state.column,
                    )
                    &&& r.addr == old(self).state.addr
                })
                &&& final(self).state.addr == vstd::wrapping::u64_specs::wrapping_add(
                    old(self).state.addr,
                    old(self).width as u64,
                )
            },
    {
        if self.state.column > 0 {
            self.print_row(out);
        } else {
            proof {
                assert(self.state.row_bytes@ =~= Seq::<u8>::empty());
            }
        }
    }

    /// Pretty print one whole byte source as classified hex rows: classify and
    /// consume every byte, then flush the final partial row.
    pub fn pretty_hex(&mut self, bytes: &[u8], out: &mut Vec<Row>)
        requires
            old(self).wf(),
            old(self).state.hex_group@ == Seq::<u8>::empty(),
            old(self).state.table_group@ == Seq::<u8>::empty(),
        ensures
            final(self).wf(),
            final(self).same_config(&*old(self)),
            final(self).state.column == 0,
            final(self).state.row_bytes@ == Seq::<u8>::empty(),
            final(self).state.hex_group@ == Seq::<u8>::empty(),
            final(self).state.table_group@ == Seq::<u8>::empty(),
            ({
                let w = old(self).width as int;
                let g = old(self).group as int;
                let stream = old(self).state.row_bytes@ + bytes@;
                let full = stream.len() as int / w;
                let rem = stream.len() as int % w;
                let total = full + (if rem > 0 { 1int } else { 0int });
                let base = old(out)@.len() as int;
                &&& final(out)@.len() == base + total
                &&& final(out)@.subrange(0, base) == old(out)@
                &&& forall|k: int|
                    0 <= k < full ==> {
                        let r = #[trigger] final(out)@[base + k];
                        &&& r.bytes@ == stream.subrange(k * w, (k + 1) * w)
                        &&& encode_utf8(r.hex@) == hex_area(r.bytes@, g)
                        &&& r.addr == (if k == 0 {
                            old(self).state.addr
                        } else {
                            vstd::wrapping::u64_specs::wrapping_add(
                                final(out)@[base + k - 1].addr,
                                w as u64,
                            )
                        })
                    }
                &&& rem > 0 ==> ({
                    let r = final(out)@.last();
                    &&& r.bytes@ == stream.skip(full * w)
                    &&& encode_utf8(r.hex@) == hex_area(r.bytes@, g) + spaces(
                        old(self).max - padding_spec(g, rem),
                    )
                    &&& r.addr == (if full == 0 {
                        old(self).state.addr
                    } else {
                        vstd::wrapping::u64_specs::wrapping_add(
                            final(out)@[base + full - 1].addr,
                            w as u64,
                        )
                    })
                })
                &&& final(self).state.addr == (if total == 0 {
                    old(self).state.addr
                } else {
                    vstd::wrapping::u64_specs::wrapping_add(
                        final(out)@[base + total - 1].addr,
                        w as u64,
                    )
                })
                &&& ({
                    let tbl = final(self).state.plain_table@;
                    rows_tables(final(out)@.subrange(base, base + total)) + tbl == old(
                        self,
                    ).state.plain_table@ + stream_table(
                        bytes@,
                        old(self).numeric,
                        old(self).state.column as int,
                        w,
                    ) + (if rem > 0 {
                        spaces(w - rem)
                    } else {
                        Seq::<u8>::empty()
                    })
                })
            }),
    {
        let ghost base = out@.len() as int;
        self.process_chunk(bytes, out);
        let ghost rows_before = out@;
        let ghost plain_mid = self.state.plain_table@;
        self.finish(out);
        proof {
            assert(out@.subrange(0, base) =~= old(out)@) by {
                if self.state.column != old(self).state.column || out@.len() != rows_before.len() {
                    assert(out@.subrange(0, rows_before.len() as int) =~= rows_before);
                    assert(forall|j: int|
                        0 <= j < base ==> out@.subrange(0, rows_before.len() as int)[j]
                            == #[trigger] out@[j]);
                    assert(out@.subrange(0, base) =~= rows_before.subrange(0, base));
                }
            }
            assert forall|k: int| 0 <= k < rows_before.len() - base implies #[trigger] out@[base
                + k] == rows_before[base + k] by {
                assert(out@.subrange(0, rows_before.len() as int) =~= rows_before);
                assert(out@.subrange(0, rows_before.len() as int)[base + k] == out@[base + k]);
            }
            let w = old(self).width as int;
            let stream = old(self).state.row_bytes@ + bytes@;
            let full = stream.len() as int / w;
            let rem = stream.len() as int % w;
            let total = full + (if rem > 0 {
                1int
            } else {
                0int
            });
            let told = old(self).state.plain_table@;
            let st = stream_table(bytes@, old(self).numeric, old(self).state.column as int, w);
            let sub_full = out@.subrange(base, base + full);
            assert(sub_full =~= rows_before.subrange(base, base + full));
            if rem > 0 {
                let r = out@.last();
                assert(out@.subrange(base, base + total) =~= sub_full.push(r));
                assert(rows_tables(sub_full.push(r)) == rows_tables(sub_full) + encode_utf8(
                    r.table@,
                )) by {
                    assert(sub_full.push(r).drop_last() =~= sub_full);
                    assert(sub_full.push(r).last() == r);
                }
                assert(rows_tables(sub_full) + plain_mid =~= told + st) by {
                    assert(rows_tables(rows_before.subrange(base, base + full)) + plain_mid
                        == told + st);
                }
                assert(encode_utf8(r.table@) =~= plain_mid + spaces(w - rem));
                assert(rows_tables(out@.subrange(base, base + total))
                    + self.state.plain_table@ =~= told + st + spaces(w - rem)) by {
                    assert(self.state.plain_table@ =~= Seq::<u8>::empty());
                    assert(rows_tables(out@.subrange(base, base + total)) == rows_tables(sub_full)
                        + (plain_mid + spaces(w - rem)));
                    assert(rows_tables(sub_full) + (plain_mid + spaces(w - rem)) =~= (rows_tables(
                        sub_full,
                    ) + plain_mid) + spaces(w - rem));
                }
            } else {
                assert(out@.subrange(base, base + total) =~= sub_full);
                assert(rows_tables(out@.subrange(base, base + total))
                    + self.state.plain_table@ =~= told + st + Seq::<u8>::empty()) by {
                    assert(rows_tables(rows_before.subrange(base, base + full))
                        + self.state.plain_table@ == told + st);
                    assert(told + st + Seq::<u8>::empty() =~= told + st);
                }
            }
        }
    }
}

/// What one row's hex area reads back as: its hex-digit pairs taken in order,
/// with every space ignored.
pub open spec fn row_read_back(r: Row) -> Seq<u8> {
    crate::hexfmt::unhex(crate::hexfmt::strip_spaces(encode_utf8(r.hex@)))
}

/// What a row sequence's hex areas read back as, concatenated in emission
/// order.
pub open spec fn rows_read_back(rows: Seq<Row>) -> Seq<u8>
    decreases rows.len(),
{
    if rows.len() == 0 {
        Seq::empty()
    } else {
        rows_read_back(rows.drop_last()) + row_read_back(rows.last())
    }
}

/// The bytes of a row sequence, in emission order.
pub open spec fn rows_bytes(rows: Seq<Row>) -> Seq<u8>
    decreases rows.len(),
{
    if rows.len() == 0 {
        Seq::empty()
    } else {
        rows_bytes(rows.drop_last()) + rows.last().bytes@
    }
}

/// The rows emitted for one byte source cover it exactly, in order: the full
/// rows are its successive `w`-byte slices and the final partial row, if any,
/// is what remains, so concatenating the rows' bytes reconstructs the source.
/// Together with the per-row hex contract and the hex-area round trip, this is
/// the whole-output round trip: the hex areas, read back in order with all
/// spaces ignored, give back the input.
pub proof fn lemma_rows_cover_stream(rows: Seq<Row>, stream: Seq<u8>, w: int)
    requires
        w >= 1,
        rows.len() == stream.len() as int / w + (if stream.len() as int % w > 0 {
            1int
        } else {
            0int
        }),
        forall|k: int|
            0 <= k < stream.len() as int / w ==> (#[trigger] rows[k].bytes)@ == stream.subrange(
                k * w,
                (k + 1) * w,
            ),
        stream.len() as int % w > 0 ==> rows.last().bytes@ == stream.skip((stream.len() as int / w) * w),
    ensures
        rows_bytes(rows) == stream,
    decreases rows.len(),
{
    vstd::arithmetic::div_mod::lemma_fundamental_div_mod(stream.len() as int, w);
    let full = stream.len() as int / w;
    let rem = stream.len() as int % w;
    if rows.len() == 0 {
        assert(stream.len() as int == w * full + rem);
        assert(full >= 0) by (nonlinear_arith)
            requires
                w >= 1,
                w * full + rem >= 0,
                0 <= rem < w,
        ;
        assert(full == 0 && rem == 0);
        assert(stream.len() as int == w * 0 + 0);
        assert(stream =~= Seq::<u8>::empty());
    } else {
        let last = rows.last();
        let head = stream.take(stream.len() - last.bytes@.len());
        if rem > 0 {
            assert(last.bytes@ == stream.skip(full * w));
            assert(stream.len() - last.bytes@.len() == full * w) by {
                assert(full * w == w * full) by (nonlinear_arith);
            }
            assert(0 <= full * w <= stream.len()) by (nonlinear_arith)
                requires
                    w >= 1,
                    full >= 0,
                    stream.len() as int == w * full + rem,
                    0 <= rem,
            ;
            assert(head =~= stream.take(full * w));
            assert(head.len() == full * w);
            vstd::arithmetic::div_mod::lemma_fundamental_div_mod_converse(full * w, w, full, 0);
            assert(rows.drop_last().len() == head.len() as int / w + 0);
            assert forall|k: int| 0 <= k < head.len() as int / w implies (#[trigger] rows.drop_last()[
                k].bytes)@ == head.subrange(k * w, (k + 1) * w) by {
                assert(rows.drop_last()[k] == rows[k]);
                assert(0 <= k * w && k * w <= (k + 1) * w && (k + 1) * w <= full * w) by (nonlinear_arith)
                    requires
                        0 <= k,
                        k + 1 <= full,
                        w >= 1,
                ;
                assert(head.subrange(k * w, (k + 1) * w) =~= stream.subrange(k * w, (k + 1) * w));
            }
            lemma_rows_cover_stream(rows.drop_last(), head, w);
            assert(head + last.bytes@ =~= stream);
        } else {
            assert(full >= 1);
            assert(last.bytes@ == stream.subrange((full - 1) * w, full * w));
            assert(stream.len() == full * w) by {
                assert(full * w == w * full) by (nonlinear_arith);
            }
            assert(last.bytes@.len() == w) by {
                assert(full * w - (full - 1) * w == w) by (nonlinear_arith);
            }
            assert(0 <= (full - 1) * w && (full - 1) * w + w == full * w) by (nonlinear_arith)
                requires
                    w >= 1,
                    full >= 1,
            ;
            assert(head =~= stream.take((full - 1) * w));
            assert(head.len() == (full - 1) * w);
            vstd::arithmetic::div_mod::lemma_fundamental_div_mod_converse(
                (full - 1) * w,
                w,
                full - 1,
                0,
            );
            assert(rows.drop_last().len() == head.len() as int / w + 0);
            assert forall|k: int| 0 <= k < head.len() as int / w implies (#[trigger] rows.drop_last()[
                k].bytes)@ == head.subrange(k * w, (k + 1) * w) by {
                assert(rows.drop_last()[k] == rows[k]);
                assert(0 <= k * w && k * w <= (k + 1) * w && (k + 1) * w <= (full - 1) * w) by (nonlinear_arith)
                    requires
                        0 <= k,
                        k + 1 <= full - 1,
                        w >= 1,
                ;
                assert(head.subrange(k * w, (k + 1) * w) =~= stream.subrange(k * w, (k + 1) * w));
            }
            lemma_rows_cover_stream(rows.drop_last(), head, w);
            assert(head + last.bytes@ =~= stream);
        }
    }
}

/// A row sequence whose every row reads back as its own bytes reads back as
/// the concatenation of the rows' bytes.
proof fn lemma_read_back_eq(rows: Seq<Row>)
    requires
        forall|k: int| 0 <= k < rows.len() ==> row_read_back(#[trigger] rows[k]) == rows[k].bytes@,
    ensures
        rows_read_back(rows) == rows_bytes(rows),
    decreases rows.len(),
{
    if rows.len() > 0 {
        let head = rows.drop_last();
        assert(forall|k: int| 0 <= k < head.len() ==> #[trigger] head[k] == rows[k]);
        lemma_read_back_eq(head);
        assert(rows_read_back(rows) =~= rows_bytes(rows));
    }
}

/// Round trip of the whole output: reading the emitted rows' hex areas back as
/// byte pairs, ignoring all separators and padding spaces, and concatenating
/// them in order reconstructs the printed byte source exactly, for any valid
/// width and group. The hypotheses are what `pretty_hex` ensures of the rows
/// it emits for one source.
pub proof fn lemma_round_trip(rows: Seq<Row>, stream: Seq<u8>, w: int, g: int)
    requires
        w >= 1,
        g >= 1,
        rows.len() == stream.len() as int / w + (if stream.len() as int % w > 0 {
            1int
        } else {
            0int
        }),
        forall|k: int|
            0 <= k < stream.len() as int / w ==> (#[trigger] rows[k].bytes)@ == stream.subrange(
                k * w,
                (k + 1) * w,
            ),
        stream.len() as int % w > 0 ==> rows.last().bytes@ == stream.skip(
            (stream.len() as int / w) * w,
        ),
        forall|k: int|
            0 <= k < rows.len() ==> exists|p: int|
                encode_utf8((#[trigger] rows[k]).hex@) == hex_area(rows[k].bytes@, g) + spaces(p),
    ensures
        rows_read_back(rows) == stream,
{
    lemma_rows_cover_stream(rows, stream, w);
    assert forall|k: int| 0 <= k < rows.len() implies row_read_back(#[trigger] rows[k]) == rows[
        k].bytes@ by {
        let p = choose|p: int|
            encode_utf8(rows[k].hex@) == hex_area(rows[k].bytes@, g) + spaces(p);
        crate::hexfmt::lemma_padded_hex_round_trip(
            encode_utf8(rows[k].hex@),
            rows[k].bytes@,
            g,
            p,
        );
    }
    lemma_read_back_eq(rows);
}

/// One address field's hex digits are ASCII, so they are valid UTF-8.
proof fn lemma_field_hex_valid(f: u64)
    ensures
        valid_utf8(field_hex(f)),
{
    assert(((f >> 12) & 0xf) < 16 && ((f >> 8) & 0xf) < 16 && ((f >> 4) & 0xf) < 16 && (f & 0xf)
        < 16) by (bit_vector);
    let p = field_hex(f);
    assert(p[0] == hex_digit(((f >> 12) & 0xf) as u8) && p[1] == hex_digit(((f >> 8) & 0xf) as u8)
        && p[2] == hex_digit(((f >> 4) & 0xf) as u8) && p[3] == hex_digit((f & 0xf) as u8));
    assert(forall|i: int| 0 <= i < p.len() ==> p[i] < 0x80);
    lemma_ascii_valid_utf8(p);
}

/// Append the four hex digits of one address field.
fn push_field(v: &mut Vec<u8>, f: u64)
    requires
        f <= 0xffff,
    ensures
        final(v)@ == old(v)@ + field_hex(f),
{
    proof {
        assert(((f >> 12) & 0xf) < 16 && ((f >> 8) & 0xf) < 16 && ((f >> 4) & 0xf) < 16 && (f
            & 0xf) < 16) by (bit_vector);
    }
    v.push(to_hex_digit(((f >> 12) & 0xf) as u8));
    v.push(to_hex_digit(((f >> 8) & 0xf) as u8));
    v.push(to_hex_digit(((f >> 4) & 0xf) as u8));
    v.push(to_hex_digit((f & 0xf) as u8));
    proof {
        assert(v@ =~= old(v)@ + field_hex(f));
    }
}

} // verus!
