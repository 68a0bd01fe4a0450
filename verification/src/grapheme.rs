use vstd::prelude::*;
use vstd::string::StringSliceAdditionalSpecFns;
use vstd::utf8::{decode_utf8, encode_utf8, valid_utf8};
use unicode_segmentation::UnicodeSegmentation;

verus! {

/// Number of leading characters of a string that form its first grapheme
/// cluster, as unicode-segmentation splits it: a function of the characters
/// alone.
pub uninterp spec fn first_cluster_len(s: Seq<char>) -> int;

/// Display width in terminal cells of a grapheme cluster, as
/// unicode-display-width measures it: a function of the characters alone.
pub uninterp spec fn display_width(s: Seq<char>) -> int;

/// The characters of the first grapheme cluster of a valid UTF-8 byte slice.
pub open spec fn cluster_chars(bytes: Seq<u8>) -> Seq<char>
    recommends
        valid_utf8(bytes),
{
    decode_utf8(bytes).take(first_cluster_len(decode_utf8(bytes)))
}

/// Relies on `core::str::from_utf8`: it returns `Ok` exactly when the bytes
/// are valid UTF-8, and the returned string views those same bytes.
#[verifier::external_body]
pub(crate) fn utf8_to_str(bytes: &[u8]) -> (r: Option<&str>)
    ensures
        r is Some <==> valid_utf8(bytes@),
        r matches Some(s) ==> s@ == decode_utf8(bytes@) && encode_utf8(s@) == bytes@,
{
    core::str::from_utf8(bytes).ok()
}

/// Relies on `UnicodeSegmentation::graphemes`: the first grapheme cluster of a
/// non-empty string is one of its non-empty prefixes, determined by the
/// characters alone.
#[verifier::external_body]
fn first_grapheme<'a>(s: &'a str) -> (r: Option<&'a str>)
    ensures
        r is Some <==> s@.len() > 0,
        r matches Some(c) ==> 1 <= first_cluster_len(s@) <= s@.len() && c@ == s@.take(
            first_cluster_len(s@),
        ),
{
    UnicodeSegmentation::graphemes(s, true).next()
}

/// Relies on `unicode_display_width::width`: the display width of a string
/// depends on its characters alone.
#[verifier::external_body]
fn cluster_width(s: &str) -> (r: u64)
    ensures
        r as int == display_width(s@),
{
    unicode_display_width::width(s)
}

/// The UTF-8 encoding of concatenated text is the concatenation of the
/// encodings.
pub proof fn lemma_encode_utf8_concat(a: Seq<char>, b: Seq<char>)
    ensures
        encode_utf8(a + b) == encode_utf8(a) + encode_utf8(b),
    decreases a.len(),
{
    if a.len() == 0 {
        assert(a + b =~= b);
        assert(encode_utf8(a) + encode_utf8(b) =~= encode_utf8(b));
    } else {
        lemma_encode_utf8_concat(a.drop_first(), b);
        assert((a + b).drop_first() =~= a.drop_first() + b);
        assert((a + b)[0] == a[0]);
        assert(encode_utf8(a + b) =~= encode_utf8(a) + encode_utf8(b));
    }
}

/// The UTF-8 encoding of non-empty text is non-empty.
pub proof fn lemma_encode_utf8_nonempty(a: Seq<char>)
    ensures
        a.len() > 0 ==> encode_utf8(a).len() >= 1,
{
}

/// A grapheme cluster, or a plain ASCII run shown byte for byte.
///
/// One single-wide or double-wide character, potentially composed of multiple
/// Unicode codepoints.
pub struct Span<'a> {
    /// The bytes of the byte slice composing the entire span.
    pub bytes: &'a [u8],
    /// The decoded text, present only for a parsed grapheme cluster.
    pub parsed: Option<&'a str>,
}

/// How one byte of a span shows in the character table.
pub enum Char<'a> {
    /// Show the grapheme cluster.
    Cluster(&'a str),
    /// Show a blank space.
    Space,
    /// Skip this column.
    Skip,
}

impl Span<'_> {
    /// Create an ASCII span: the bytes stand for themselves, nothing is parsed.
    pub fn ascii(bytes: &[u8]) -> (r: Span<'_>)
        ensures
            r.bytes@ == bytes@,
            r.parsed is None,
    {
        Span { bytes, parsed: None }
    }

    /// Parse the first available grapheme cluster from a byte slice if
    /// possible: the slice must be wholly valid UTF-8 and non-empty.
    pub fn parse(bytes: &[u8]) -> (r: Option<Span<'_>>)
        ensures
            r is Some <==> (bytes@.len() > 0 && valid_utf8(bytes@)),
            r matches Some(span) ==> {
                &&& span.parsed matches Some(c) && c@ == cluster_chars(bytes@)
                &&& cluster_chars(bytes@).len() >= 1
                &&& span.bytes@ == encode_utf8(cluster_chars(bytes@))
                &&& 1 <= span.bytes@.len() <= bytes@.len()
                &&& span.bytes@ == bytes@.subrange(0, span.bytes@.len() as int)
            },
    {
        let s = match utf8_to_str(bytes) {
            Some(s) => s,
            None => {
                return None;
            },
        };
        let c = match first_grapheme(s) {
            Some(c) => c,
            None => {
                proof {
                    assert(decode_utf8(bytes@).len() == 0);
                    assert(bytes@.len() == 0);
                }
                return None;
            },
        };
        let n = c.len();
        proof {
            let k = first_cluster_len(s@);
            assert(s@ =~= s@.take(k) + s@.skip(k));
            lemma_encode_utf8_concat(s@.take(k), s@.skip(k));
            lemma_encode_utf8_nonempty(c@);
            assert(encode_utf8(s@) == encode_utf8(s@.take(k)) + encode_utf8(s@.skip(k)));
            assert(bytes@ == encode_utf8(c@) + encode_utf8(s@.skip(k)));
            assert(encode_utf8(c@).len() <= bytes@.len());
            assert(encode_utf8(c@).len() <= usize::MAX) by {
                assert(vstd::slice::spec_slice_len(bytes) == bytes@.len());
            }
            assert(n as int == encode_utf8(c@).len());
            assert(bytes@.subrange(0, n as int) =~= encode_utf8(c@));
        }
        Some(Span { bytes: vstd::slice::slice_subrange(bytes, 0, n), parsed: Some(c) })
    }

    /// Decide how the byte at `index` within this parsed grapheme cluster
    /// shows in the character table, for a row of `width` columns with the
    /// byte landing at `column`: the cluster text once, at its first byte, or
    /// at its second byte when a double-wide cluster must wrap to the next
    /// row; a skipped column filling the second cell of a double-wide glyph; a
    /// blank for every surplus encoding byte.
    pub fn as_char(&self, index: usize, column: usize, width: usize) -> (r: Char<'_>)
        requires
            self.parsed is Some,
            width >= 1,
        ensures
            ({
                let cl = self.parsed->0@;
                let wide = display_width(cl) == 2;
                &&& (r matches Char::Cluster(c) ==> c@ == cl)
                &&& if (index == 0 && (!wide || column != width - 1)) || (index == 1 && wide
                    && column == 0) {
                    r is Cluster
                } else if wide && ((index == 1 && column != 0) || (index == 2 && column == 1)) {
                    r is Skip
                } else {
                    r is Space
                }
            }),
    {
        let cluster = self.parsed.unwrap();
        let wide = cluster_width(cluster) == 2;
        if (index == 0 && (!wide || column != width - 1)) || (index == 1 && wide && column == 0) {
            Char::Cluster(cluster)
        } else if wide && ((index == 1 && column != 0) || (index == 2 && column == 1)) {
            Char::Skip
        } else {
            Char::Space
        }
    }
}

} // verus!
