use crate::grapheme::{cluster_chars, Span};
use crate::Numeric;
use vstd::prelude::*;
use vstd::utf8::{encode_utf8, valid_utf8};

verus! {

/// Byte classifications for pretty printing.
#[derive(Copy, Clone, Eq, PartialEq, Structural, Debug)]
pub enum Kind {
    /// Digit characters under the active numeric mode.
    Numeric,
    /// ASCII space or graphic characters that are not digits.
    Printable,
    /// ASCII control characters.
    Control,
    /// One UTF-8 encoded grapheme cluster.
    Graphemes,
    /// Bytes that fit none of the other classes.
    Invalid,
}

/// Whether a byte counts as a digit under the active numeric mode: `0` to `6`
/// for octal, the ASCII digits for decimal, and the ASCII hex digits of either
/// case for hexadecimal.
pub open spec fn is_numeric_spec(byte: u8, numeric: Numeric) -> bool {
    match numeric {
        Numeric::Octal => 0x30 <= byte <= 0x36,
        Numeric::Decimal => 0x30 <= byte <= 0x39,
        Numeric::Hexadecimal => (0x30 <= byte <= 0x39) || (0x41 <= byte <= 0x46) || (0x61 <= byte
            <= 0x66),
    }
}

/// Whether a byte is the ASCII space or an ASCII graphic character.
pub open spec fn is_printable_spec(byte: u8) -> bool {
    0x20 <= byte <= 0x7e
}

/// Whether a byte is an ASCII control character.
pub open spec fn is_control_spec(byte: u8) -> bool {
    byte <= 0x1f || byte == 0x7f
}

/// Whether the slice begins a grapheme cluster: it is non-empty and wholly
/// valid UTF-8.
pub open spec fn starts_cluster(bytes: Seq<u8>) -> bool {
    bytes.len() > 0 && valid_utf8(bytes)
}

/// The classification of a non-empty slice, decided on its first byte with the
/// first match winning: numeric, then printable, then control, then a grapheme
/// cluster, and invalid only when nothing else applies.
pub open spec fn classify_spec(bytes: Seq<u8>, numeric: Numeric) -> Kind
    recommends
        bytes.len() > 0,
{
    if is_numeric_spec(bytes[0], numeric) {
        Kind::Numeric
    } else if is_printable_spec(bytes[0]) {
        Kind::Printable
    } else if is_control_spec(bytes[0]) {
        Kind::Control
    } else if starts_cluster(bytes) {
        Kind::Graphemes
    } else {
        Kind::Invalid
    }
}

/// Whether a byte extends a run of one of the homogeneous kinds: a printable
/// run stops early at a digit, which the numeric kind always wins.
pub open spec fn extends_run(kind: Kind, byte: u8, numeric: Numeric) -> bool {
    match kind {
        Kind::Numeric => is_numeric_spec(byte, numeric),
        Kind::Printable => is_printable_spec(byte) && !is_numeric_spec(byte, numeric),
        Kind::Control => is_control_spec(byte),
        _ => false,
    }
}

/// Whether the byte at offset `at` extends an invalid run: it satisfies no
/// homogeneous predicate and does not itself start a grapheme cluster there.
pub open spec fn extends_invalid(bytes: Seq<u8>, at: int, numeric: Numeric) -> bool {
    &&& !is_numeric_spec(bytes[at], numeric)
    &&& !is_printable_spec(bytes[at])
    &&& !is_control_spec(bytes[at])
    &&& !starts_cluster(bytes.skip(at))
}

/// Length of the homogeneous run of `kind` at the head of the slice: the
/// first byte, plus every following byte while each extends the run.
pub open spec fn run_len_spec(bytes: Seq<u8>, kind: Kind, numeric: Numeric) -> int
    decreases bytes.len(),
{
    if bytes.len() <= 1 {
        bytes.len() as int
    } else if extends_run(kind, bytes[1], numeric) {
        1 + run_len_spec(bytes.drop_first(), kind, numeric)
    } else {
        1
    }
}

/// End of the invalid run that has reached offset `at`: the first offset from
/// `at` on whose byte does not extend an invalid run.
pub open spec fn invalid_scan(bytes: Seq<u8>, at: int, numeric: Numeric) -> int
    recommends
        1 <= at <= bytes.len(),
    decreases bytes.len() - at,
{
    if at < 0 || at >= bytes.len() {
        at
    } else if extends_invalid(bytes, at, numeric) {
        invalid_scan(bytes, at + 1, numeric)
    } else {
        at
    }
}

/// How many leading bytes one classification step consumes: the maximal run
/// for the homogeneous kinds, the first grapheme cluster's encoding for a
/// cluster, and the invalid run otherwise.
pub open spec fn gather_len(bytes: Seq<u8>, numeric: Numeric) -> int
    recommends
        bytes.len() > 0,
{
    match classify_spec(bytes, numeric) {
        Kind::Graphemes => encode_utf8(cluster_chars(bytes)).len() as int,
        Kind::Invalid => invalid_scan(bytes, 1, numeric),
        kind => run_len_spec(bytes, kind, numeric),
    }
}

/// The cluster text one classification step parses: the first grapheme
/// cluster's characters for a cluster group, nothing for the other kinds.
pub open spec fn gather_cluster(bytes: Seq<u8>, numeric: Numeric) -> Seq<char>
    recommends
        bytes.len() > 0,
{
    if classify_spec(bytes, numeric) is Graphemes {
        cluster_chars(bytes)
    } else {
        Seq::empty()
    }
}

/// A homogeneous run's length is pinned by its two sides: every byte before
/// `n` extends the run and the byte at `n`, if any, does not.
proof fn lemma_run_len_unique(bytes: Seq<u8>, kind: Kind, numeric: Numeric, n: int)
    requires
        1 <= n <= bytes.len(),
        forall|i: int| 1 <= i < n ==> extends_run(kind, #[trigger] bytes[i], numeric),
        n < bytes.len() ==> !extends_run(kind, bytes[n], numeric),
    ensures
        run_len_spec(bytes, kind, numeric) == n,
    decreases n,
{
    if n == 1 {
    } else {
        let t = bytes.drop_first();
        assert(forall|i: int| 1 <= i < n - 1 ==> #[trigger] t[i] == bytes[i + 1]);
        assert(n - 1 < t.len() ==> t[n - 1] == bytes[n]);
        lemma_run_len_unique(t, kind, numeric, n - 1);
    }
}

/// An invalid run's length is pinned the same way: every offset before `n`
/// extends it and the offset `n`, if any, does not.
proof fn lemma_invalid_scan_unique(bytes: Seq<u8>, numeric: Numeric, at: int, n: int)
    requires
        1 <= at <= n <= bytes.len(),
        forall|i: int| at <= i < n ==> #[trigger] extends_invalid(bytes, i, numeric),
        n < bytes.len() ==> !extends_invalid(bytes, n, numeric),
    ensures
        invalid_scan(bytes, at, numeric) == n,
    decreases n - at,
{
    if at < n {
        lemma_invalid_scan_unique(bytes, numeric, at + 1, n);
    }
}

/// Byte slices are grouped into spans by [`Kind`].
pub struct Group<'a> {
    /// The kind of group this is.
    pub kind: Kind,
    /// The span of the byte slice composing the entire group.
    pub span: Span<'a>,
}

impl Group<'_> {
    /// A classified group is coherent: its bytes are non-empty; a homogeneous
    /// run satisfies its kind's predicate throughout; a grapheme group carries
    /// exactly the parsed cluster and its encoding.
    pub open spec fn wf(&self, numeric: Numeric) -> bool {
        &&& 1 <= self.span.bytes@.len()
        &&& match self.kind {
            Kind::Numeric | Kind::Printable | Kind::Control => forall|i: int|
                0 <= i < self.span.bytes@.len() ==> extends_run(
                    self.kind,
                    #[trigger] self.span.bytes@[i],
                    numeric,
                ),
            Kind::Graphemes => {
                &&& self.span.parsed matches Some(c)
                &&& self.span.parsed->0@.len() >= 1
                &&& self.span.bytes@ == encode_utf8(self.span.parsed->0@)
            },
            Kind::Invalid => true,
        }
    }

    /// Parse a group (span and classification) from a byte slice: the maximal
    /// leading run of one classification kind.
    pub fn gather(bytes: &[u8], numeric: Numeric) -> (r: Group<'_>)
        requires
            bytes@.len() > 0,
        ensures
            r.wf(numeric),
            r.kind == classify_spec(bytes@, numeric),
            r.span.bytes@.len() == gather_len(bytes@, numeric),
            r.kind is Graphemes ==> r.span.parsed->0@ == gather_cluster(bytes@, numeric),
            r.kind is Graphemes || r.span.parsed is None,
            1 <= r.span.bytes@.len() <= bytes@.len(),
            r.span.bytes@ == bytes@.subrange(0, r.span.bytes@.len() as int),
            match r.kind {
                Kind::Numeric | Kind::Printable | Kind::Control => r.span.bytes@.len()
                    < bytes@.len() ==> !extends_run(
                    r.kind,
                    bytes@[r.span.bytes@.len() as int],
                    numeric,
                ),
                Kind::Graphemes => {
                    &&& r.span.parsed matches Some(c) && c@ == cluster_chars(bytes@)
                    &&& r.span.bytes@ == encode_utf8(cluster_chars(bytes@))
                },
                Kind::Invalid => {
                    &&& forall|i: int|
                        1 <= i < r.span.bytes@.len() ==> #[trigger] extends_invalid(
                            bytes@,
                            i,
                            numeric,
                        )
                    &&& r.span.bytes@.len() < bytes@.len() ==> !extends_invalid(
                        bytes@,
                        r.span.bytes@.len() as int,
                        numeric,
                    )
                },
            },
    {
        let byte = bytes[0];
        if Kind::is_numeric(byte, numeric) {
            let r = Self::numeric_span(bytes, numeric);
            proof {
                lemma_run_len_unique(
                    bytes@,
                    Kind::Numeric,
                    numeric,
                    r.span.bytes@.len() as int,
                );
            }
            r
        } else if Kind::is_printable(byte) {
            let r = Self::printable_span(bytes, numeric);
            proof {
                lemma_run_len_unique(
                    bytes@,
                    Kind::Printable,
                    numeric,
                    r.span.bytes@.len() as int,
                );
            }
            r
        } else if Kind::is_control(byte) {
            let r = Self::control_span(bytes);
            proof {
                lemma_run_len_unique(
                    bytes@,
                    Kind::Control,
                    numeric,
                    r.span.bytes@.len() as int,
                );
            }
            r
        } else {
            let parsed = Span::parse(bytes);
            match parsed {
                Some(span) => Group { kind: Kind::Graphemes, span },
                None => {
                    let r = Self::invalid_span(bytes, numeric);
                    proof {
                        lemma_invalid_scan_unique(
                            bytes@,
                            numeric,
                            1,
                            r.span.bytes@.len() as int,
                        );
                    }
                    r
                },
            }
        }
    }

    /// Wrap classified bytes with no cluster parsing.
    pub fn new(kind: Kind, bytes: &[u8]) -> (r: Group<'_>)
        ensures
            r.kind == kind,
            r.span.bytes@ == bytes@,
            r.span.parsed is None,
    {
        Group { kind, span: Span::ascii(bytes) }
    }

    /// The maximal leading run of digits under the active numeric mode.
    pub fn numeric_span(bytes: &[u8], numeric: Numeric) -> (r: Group<'_>)
        requires
            bytes@.len() > 0,
            is_numeric_spec(bytes@[0], numeric),
        ensures
            r.kind == Kind::Numeric,
            r.span.parsed is None,
            1 <= r.span.bytes@.len() <= bytes@.len(),
            r.span.bytes@ == bytes@.subrange(0, r.span.bytes@.len() as int),
            forall|i: int|
                0 <= i < r.span.bytes@.len() ==> is_numeric_spec(#[trigger] bytes@[i], numeric),
            r.span.bytes@.len() < bytes@.len() ==> !is_numeric_spec(
                bytes@[r.span.bytes@.len() as int],
                numeric,
            ),
    {
        let mut length: usize = 1;
        while length < bytes.len() && Kind::is_numeric(bytes[length], numeric)
            invariant
                1 <= length <= bytes@.len(),
                forall|i: int| 0 <= i < length ==> is_numeric_spec(#[trigger] bytes@[i], numeric),
            decreases bytes@.len() - length,
        {
            length += 1;
        }
        let r = Self::new(Kind::Numeric, vstd::slice::slice_subrange(bytes, 0, length));
        proof {
            assert(forall|i: int| 0 <= i < length ==> r.span.bytes@[i] == bytes@[i]);
        }
        r
    }

    /// The maximal leading run of printable non-digit bytes: a digit always
    /// classifies as numeric instead, so it ends a printable run.
    pub fn printable_span(bytes: &[u8], numeric: Numeric) -> (r: Group<'_>)
        requires
            bytes@.len() > 0,
            is_printable_spec(bytes@[0]),
            !is_numeric_spec(bytes@[0], numeric),
        ensures
            r.kind == Kind::Printable,
            r.span.parsed is None,
            1 <= r.span.bytes@.len() <= bytes@.len(),
            r.span.bytes@ == bytes@.subrange(0, r.span.bytes@.len() as int),
            forall|i: int|
                0 <= i < r.span.bytes@.len() ==> extends_run(
                    Kind::Printable,
                    #[trigger] bytes@[i],
                    numeric,
                ),
            r.span.bytes@.len() < bytes@.len() ==> !extends_run(
                Kind::Printable,
                bytes@[r.span.bytes@.len() as int],
                numeric,
            ),
    {
        let mut length: usize = 1;
        while length < bytes.len() && Kind::is_printable(bytes[length]) && !Kind::is_numeric(
            bytes[length],
            numeric,
        )
            invariant
                1 <= length <= bytes@.len(),
                forall|i: int|
                    0 <= i < length ==> extends_run(Kind::Printable, #[trigger] bytes@[i], numeric),
            decreases bytes@.len() - length,
        {
            length += 1;
        }
        let r = Self::new(Kind::Printable, vstd::slice::slice_subrange(bytes, 0, length));
        proof {
            assert(forall|i: int| 0 <= i < length ==> r.span.bytes@[i] == bytes@[i]);
        }
        r
    }

    /// The maximal leading run of ASCII control bytes.
    pub fn control_span(bytes: &[u8]) -> (r: Group<'_>)
        requires
            bytes@.len() > 0,
            is_control_spec(bytes@[0]),
        ensures
            r.kind == Kind::Control,
            r.span.parsed is None,
            1 <= r.span.bytes@.len() <= bytes@.len(),
            r.span.bytes@ == bytes@.subrange(0, r.span.bytes@.len() as int),
            forall|i: int| 0 <= i < r.span.bytes@.len() ==> is_control_spec(#[trigger] bytes@[i]),
            r.span.bytes@.len() < bytes@.len() ==> !is_control_spec(
                bytes@[r.span.bytes@.len() as int],
            ),
    {
        let mut length: usize = 1;
        while length < bytes.len() && Kind::is_control(bytes[length])
            invariant
                1 <= length <= bytes@.len(),
                forall|i: int| 0 <= i < length ==> is_control_spec(#[trigger] bytes@[i]),
            decreases bytes@.len() - length,
        {
            length += 1;
        }
        let r = Self::new(Kind::Control, vstd::slice::slice_subrange(bytes, 0, length));
        proof {
            assert(forall|i: int| 0 <= i < length ==> r.span.bytes@[i] == bytes@[i]);
        }
        r
    }

    /// The maximal leading run of bytes that classify as nothing else: it ends
    /// at the first byte that satisfies a homogeneous predicate or starts a
    /// grapheme cluster at its own offset.
    pub fn invalid_span(bytes: &[u8], numeric: Numeric) -> (r: Group<'_>)
        requires
            bytes@.len() > 0,
        ensures
            r.kind == Kind::Invalid,
            r.span.parsed is None,
            1 <= r.span.bytes@.len() <= bytes@.len(),
            r.span.bytes@ == bytes@.subrange(0, r.span.bytes@.len() as int),
            forall|i: int|
                1 <= i < r.span.bytes@.len() ==> #[trigger] extends_invalid(bytes@, i, numeric),
            r.span.bytes@.len() < bytes@.len() ==> !extends_invalid(
                bytes@,
                r.span.bytes@.len() as int,
                numeric,
            ),
    {
        let mut length: usize = 1;
        while length < bytes.len() && Self::invalid_at(bytes, length, numeric)
            invariant
                1 <= length <= bytes@.len(),
                forall|i: int| 1 <= i < length ==> #[trigger] extends_invalid(bytes@, i, numeric),
            decreases bytes@.len() - length,
        {
            length += 1;
        }
        let r = Self::new(Kind::Invalid, vstd::slice::slice_subrange(bytes, 0, length));
        r
    }

    /// Whether the byte at `at` would extend an invalid run: it satisfies no
    /// homogeneous predicate and no grapheme cluster parses at that offset.
    fn invalid_at(bytes: &[u8], at: usize, numeric: Numeric) -> (r: bool)
        requires
            at < bytes@.len(),
        ensures
            r == extends_invalid(bytes@, at as int, numeric),
    {
        let b = bytes[at];
        if Kind::is_numeric(b, numeric) || Kind::is_printable(b) || Kind::is_control(b) {
            return false;
        }
        let rest = vstd::slice::slice_subrange(bytes, at, bytes.len());
        proof {
            assert(rest@ == bytes@.skip(at as int));
        }
        match Span::parse(rest) {
            Some(_) => false,
            None => true,
        }
    }
}

impl Kind {
    /// Test a byte against the active numeric mode's digit ranges.
    pub fn is_numeric(byte: u8, numeric: Numeric) -> (r: bool)
        ensures
            r == is_numeric_spec(byte, numeric),
    {
        match numeric {
            Numeric::Octal => 0x30 <= byte && byte <= 0x36,
            Numeric::Decimal => 0x30 <= byte && byte <= 0x39,
            Numeric::Hexadecimal => (0x30 <= byte && byte <= 0x39) || (0x41 <= byte && byte
                <= 0x46) || (0x61 <= byte && byte <= 0x66),
        }
    }

    /// Test for the ASCII space or an ASCII graphic character.
    pub fn is_printable(byte: u8) -> (r: bool)
        ensures
            r == is_printable_spec(byte),
    {
        0x20 <= byte && byte <= 0x7e
    }

    /// Test for an ASCII control character.
    pub fn is_control(byte: u8) -> (r: bool)
        ensures
            r == is_control_spec(byte),
    {
        byte <= 0x1f || byte == 0x7f
    }
}

} // verus!
