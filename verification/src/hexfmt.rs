use vstd::prelude::*;
use vstd::arithmetic::div_mod::lemma_fundamental_div_mod;

verus! {

/// ASCII code of the lower-case hex digit for a nibble.
pub open spec fn hex_digit(n: u8) -> u8
    recommends
        n < 16,
{
    if n < 10 {
        (0x30 + n) as u8
    } else {
        (0x57 + n) as u8
    }
}

/// The two ASCII hex digits of one byte, high nibble first.
pub open spec fn hex_pair(b: u8) -> Seq<u8> {
    seq![hex_digit(b / 16), hex_digit(b % 16)]
}

/// The separator written before the byte at in-row position `col`: one space at
/// the start of every group, nothing elsewhere.
pub open spec fn sep_if(col: int, g: int) -> Seq<u8> {
    if col % g == 0 {
        seq![32u8]
    } else {
        Seq::empty()
    }
}

/// The hex-area text for the bytes of one row: two hex digits per byte, with a
/// space before every group of `g` bytes, including the first.
pub open spec fn hex_area(bytes: Seq<u8>, g: int) -> Seq<u8>
    decreases bytes.len(),
{
    if bytes.len() == 0 {
        Seq::empty()
    } else {
        hex_area(bytes.drop_last(), g) + sep_if(bytes.len() - 1, g) + hex_pair(bytes.last())
    }
}

/// `n` ASCII spaces (empty for negative `n`).
pub open spec fn spaces(n: int) -> Seq<u8> {
    Seq::new(if n >= 0 { n as nat } else { 0 }, |i: int| 32u8)
}

/// Character columns taken by `n` grouped hex bytes: two digits for each byte
/// plus one separator for each group, the leading one included.
pub open spec fn padding_spec(g: int, n: int) -> int {
    2 * n + (n + g - 1) / g
}

/// Whether a byte is the ASCII code of a lower-case hex digit.
pub open spec fn is_hex_ascii(c: u8) -> bool {
    (0x30 <= c <= 0x39) || (0x61 <= c <= 0x66)
}

/// The nibble value of an ASCII hex digit.
pub open spec fn hex_val(c: u8) -> int
    recommends
        is_hex_ascii(c),
{
    if c <= 0x39 {
        c - 0x30
    } else {
        c - 0x57
    }
}

/// The sequence with all ASCII spaces removed.
pub open spec fn strip_spaces(s: Seq<u8>) -> Seq<u8> {
    s.filter(|c: u8| c != 32)
}

/// The bytes read back from a sequence of ASCII hex-digit pairs.
pub open spec fn unhex(s: Seq<u8>) -> Seq<u8>
    decreases s.len(),
{
    if s.len() < 2 {
        Seq::empty()
    } else {
        seq![(hex_val(s[0]) * 16 + hex_val(s[1])) as u8] + unhex(s.skip(2))
    }
}

/// Compute the number of character columns needed to print `length` bytes as
/// hex pairs grouped by `group`.
pub fn padding(group: usize, length: usize) -> (r: usize)
    requires
        1 <= group,
        length + group <= usize::MAX,
        padding_spec(group as int, length as int) <= usize::MAX,
    ensures
        r == padding_spec(group as int, length as int),
{
    length * 2 + (length + group - 1) / group
}

/// Compute the ASCII hex digit of a nibble.
pub fn to_hex_digit(n: u8) -> (r: u8)
    requires
        n < 16,
    ensures
        r == hex_digit(n),
        r < 0x80,
{
    if n < 10 {
        0x30 + n
    } else {
        0x57 + n
    }
}

/// One step of the grouped-column count: the columns for `n` bytes exceed those
/// for `n - 1` bytes by two digits, plus a separator when `n - 1` opens a group.
proof fn lemma_ceil_step(g: int, m: int)
    requires
        g >= 1,
        m >= 0,
    ensures
        (m + g) / g == m / g + 1,
        (m + g - 1) / g == m / g + if m % g == 0 { 0int } else { 1int },
{
    lemma_fundamental_div_mod(m, g);
    let q = m / g;
    let r = m % g;
    assert((m + g) / g == q + 1) by (nonlinear_arith)
        requires
            g >= 1,
            m == g * q + r,
            0 <= r < g,
    ;
    if r == 0 {
        assert((m + g - 1) / g == q) by (nonlinear_arith)
            requires
                g >= 1,
                m == g * q,
                0 <= g - 1 < g,
        ;
    } else {
        assert((m + g - 1) / g == q + 1) by (nonlinear_arith)
            requires
                g >= 1,
                m == g * q + r,
                1 <= r < g,
        ;
    }
}

/// The padding formula gives exactly the number of characters in the hex area
/// produced for the given bytes.
pub proof fn lemma_padding_counts(bytes: Seq<u8>, g: int)
    requires
        g >= 1,
    ensures
        hex_area(bytes, g).len() == padding_spec(g, bytes.len() as int),
    decreases bytes.len(),
{
    if bytes.len() == 0 {
        assert((g - 1) / g == 0) by (nonlinear_arith)
            requires
                g >= 1,
        ;
    } else {
        let m = bytes.len() - 1;
        lemma_padding_counts(bytes.drop_last(), g);
        lemma_ceil_step(g, m);
        vstd::arithmetic::div_mod::lemma_mod_division_less_than_divisor(m, g);
    }
}

/// A nibble's hex digit is a non-space hex character that reads back as itself.
proof fn lemma_hex_digit_props(n: u8)
    requires
        n < 16,
    ensures
        is_hex_ascii(hex_digit(n)),
        hex_val(hex_digit(n)) == n,
        hex_digit(n) != 32,
{
}

/// Reading back one appended hex pair extends the decoded bytes by that byte.
proof fn lemma_unhex_snoc(s: Seq<u8>, b: u8)
    requires
        s.len() % 2 == 0,
    ensures
        unhex(s + hex_pair(b)) == unhex(s) + seq![b],
    decreases s.len(),
{
    lemma_hex_digit_props(b / 16);
    lemma_hex_digit_props(b % 16);
    if s.len() == 0 {
        let p = hex_pair(b);
        assert(s + p =~= p);
        assert(p[0] == hex_digit(b / 16) && p[1] == hex_digit(b % 16));
        assert(p.skip(2) =~= Seq::<u8>::empty());
        assert(unhex(p.skip(2)) == Seq::<u8>::empty());
        assert(hex_val(p[0]) * 16 + hex_val(p[1]) == b);
        assert(unhex(p) == seq![(hex_val(p[0]) * 16 + hex_val(p[1])) as u8] + unhex(p.skip(2)));
        assert(unhex(s + p) =~= unhex(s) + seq![b]);
    } else {
        let t = s + hex_pair(b);
        assert(t.skip(2) =~= s.skip(2) + hex_pair(b));
        lemma_unhex_snoc(s.skip(2), b);
        assert(t[0] == s[0] && t[1] == s[1]);
        assert(unhex(t) == seq![(hex_val(t[0]) * 16 + hex_val(t[1])) as u8] + unhex(t.skip(2)));
        assert(unhex(s) == seq![(hex_val(s[0]) * 16 + hex_val(s[1])) as u8] + unhex(s.skip(2)));
        assert(unhex(t) =~= unhex(s) + seq![b]);
    }
}

/// A hex pair holds no space, so stripping spaces keeps it whole.
proof fn lemma_strip_pair(b: u8)
    ensures
        strip_spaces(hex_pair(b)) == hex_pair(b),
        strip_spaces(seq![32u8]) == Seq::<u8>::empty(),
{
    lemma_hex_digit_props(b / 16);
    lemma_hex_digit_props(b % 16);
    reveal_with_fuel(Seq::filter, 4);
    assert(hex_pair(b).drop_last() =~= seq![hex_digit(b / 16)]);
    assert(seq![hex_digit(b / 16)].drop_last() =~= Seq::<u8>::empty());
    assert(seq![32u8].drop_last() =~= Seq::<u8>::empty());
    assert(strip_spaces(hex_pair(b)) =~= hex_pair(b));
}

/// Stripping the spaces from a hex area leaves exactly the hex-digit pairs.
proof fn lemma_strip_hex_area(bytes: Seq<u8>, g: int)
    requires
        g >= 1,
    ensures
        strip_spaces(hex_area(bytes, g)).len() == 2 * bytes.len(),
        unhex(strip_spaces(hex_area(bytes, g))) == bytes,
    decreases bytes.len(),
{
    broadcast use Seq::filter_distributes_over_add;

    if bytes.len() == 0 {
        reveal_with_fuel(Seq::filter, 1);
        assert(strip_spaces(hex_area(bytes, g)) =~= Seq::<u8>::empty());
    } else {
        let prev = bytes.drop_last();
        let b = bytes.last();
        lemma_strip_hex_area(prev, g);
        lemma_strip_pair(b);
        let sep = sep_if(bytes.len() - 1, g);
        assert(strip_spaces(sep) =~= Seq::<u8>::empty()) by {
            if (bytes.len() - 1) % g == 0 {
                lemma_strip_pair(b);
            } else {
                reveal_with_fuel(Seq::filter, 1);
            }
        }
        assert(strip_spaces(hex_area(bytes, g)) =~= strip_spaces(hex_area(prev, g)) + hex_pair(
            b,
        ));
        lemma_unhex_snoc(strip_spaces(hex_area(prev, g)), b);
        assert(unhex(strip_spaces(hex_area(bytes, g))) =~= prev + seq![b]);
        assert(prev + seq![b] =~= bytes);
    }
}

/// Reading the hex-digit pairs of a row's hex area back as bytes, ignoring the
/// group separators, reconstructs the row's bytes in order.
pub proof fn lemma_hex_round_trip(bytes: Seq<u8>, g: int)
    requires
        g >= 1,
    ensures
        unhex(strip_spaces(hex_area(bytes, g))) == bytes,
{
    lemma_strip_hex_area(bytes, g);
}

/// A sequence of ASCII bytes is valid UTF-8.
pub proof fn lemma_ascii_valid_utf8(s: Seq<u8>)
    requires
        forall|i: int| 0 <= i < s.len() ==> s[i] < 0x80,
    ensures
        vstd::utf8::valid_utf8(s),
{
    assert(s.subrange(0, 0) =~= Seq::<u8>::empty());
    assert(vstd::utf8::partial_valid_utf8(s, 0));
    vstd::utf8::partial_valid_utf8_extend_ascii_block(s, 0, s.len() as int);
    assert(s.subrange(0, s.len() as int) =~= s);
}

/// Every byte of a hex area is ASCII: a hex digit or the separator space.
pub proof fn lemma_hex_area_ascii(bytes: Seq<u8>, g: int)
    ensures
        forall|i: int| 0 <= i < hex_area(bytes, g).len() ==> hex_area(bytes, g)[i] < 0x80,
    decreases bytes.len(),
{
    if bytes.len() > 0 {
        lemma_hex_area_ascii(bytes.drop_last(), g);
        let prev = hex_area(bytes.drop_last(), g);
        let s = sep_if(bytes.len() - 1, g);
        let p = hex_pair(bytes.last());
        assert(p[0] == hex_digit(bytes.last() / 16) && p[1] == hex_digit(bytes.last() % 16));
        assert(p[0] < 0x80 && p[1] < 0x80);
        assert forall|i: int| 0 <= i < hex_area(bytes, g).len() implies hex_area(bytes, g)[i]
            < 0x80 by {
            let whole = hex_area(bytes, g);
            assert(whole == prev + s + p);
            if i < prev.len() {
                assert(whole[i] == prev[i]);
            } else if i < prev.len() + s.len() {
                assert(whole[i] == 32);
            } else {
                assert(whole[i] == p[i - prev.len() - s.len()]);
            }
        }
    }
}

/// Reading back a padded hex area, ignoring all spaces, reconstructs the bytes
/// it was produced from.
pub proof fn lemma_padded_hex_round_trip(hexbytes: Seq<u8>, row: Seq<u8>, g: int, pad: int)
    requires
        g >= 1,
        hexbytes == hex_area(row, g) + spaces(pad),
    ensures
        unhex(strip_spaces(hexbytes)) == row,
{
    lemma_strip_ignores_padding(hex_area(row, g), pad);
    lemma_hex_round_trip(row, g);
}

/// Trailing padding spaces do not change what is read back from a hex area.
pub proof fn lemma_strip_ignores_padding(s: Seq<u8>, n: int)
    ensures
        strip_spaces(s + spaces(n)) == strip_spaces(s),
    decreases n,
{
    broadcast use Seq::filter_distributes_over_add;

    if n <= 0 {
        assert(spaces(n) =~= Seq::<u8>::empty());
        reveal_with_fuel(Seq::filter, 1);
        assert(strip_spaces(spaces(n)) =~= Seq::<u8>::empty());
        assert(strip_spaces(s + spaces(n)) =~= strip_spaces(s));
    } else {
        assert(spaces(n) =~= spaces(n - 1) + seq![32u8]);
        lemma_strip_ignores_padding(s, n - 1);
        reveal_with_fuel(Seq::filter, 2);
        assert(strip_spaces(seq![32u8]) =~= Seq::<u8>::empty()) by {
            assert(seq![32u8].drop_last() =~= Seq::<u8>::empty());
        }
        assert(s + spaces(n) =~= (s + spaces(n - 1)) + seq![32u8]);
        assert(strip_spaces(s + spaces(n)) =~= strip_spaces(s));
    }
}

} // verus!
