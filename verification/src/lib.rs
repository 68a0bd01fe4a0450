use vstd::prelude::*;

pub mod grapheme;
pub mod group;
pub mod hexfmt;
pub mod printer;

verus! {

/// Which byte values count as digits when classifying input.
#[derive(Copy, Clone, PartialEq, Eq, Structural, Debug)]
pub enum Numeric {
    /// Digits `0` through `6`.
    Octal,
    /// ASCII decimal digits.
    Decimal,
    /// ASCII hexadecimal digits, upper or lower case.
    Hexadecimal,
}

/// Configuration errors, reported before any byte is processed.
#[derive(Debug)]
pub enum Error {
    /// The row width is outside `2..=4095`.
    Width,
    /// The group size is zero or larger than the row width.
    Grouping,
    /// The numeric-mode token is not one of the recognized spellings.
    UnknownNumeric(String),
}

/// What `str::to_lowercase` returns: a function of the characters alone.
pub uninterp spec fn lower_of(s: Seq<char>) -> Seq<char>;

/// Relies on `str::to_lowercase`: the result depends on the characters alone.
#[verifier::external_body]
fn lowercase(s: &str) -> (r: String)
    ensures
        r@ == lower_of(s@),
{
    s.to_lowercase()
}

/// The numeric mode selected by a lower-cased token, if any.
pub open spec fn numeric_token(l: Seq<char>) -> Option<Numeric> {
    if l == "o"@ || l == "oct"@ || l == "octal"@ {
        Some(Numeric::Octal)
    } else if l == "d"@ || l == "dec"@ || l == "decimal"@ {
        Some(Numeric::Decimal)
    } else if l == "h"@ || l == "x"@ || l == "hex"@ || l == "hexadecimal"@ {
        Some(Numeric::Hexadecimal)
    } else {
        None
    }
}

impl Numeric {
    /// Select the numeric mode named by a token, compared case-insensitively.
    pub fn from_token(s: &str) -> (r: Result<Numeric, Error>)
        ensures
            numeric_token(lower_of(s@)) matches Some(m) ==> r matches Ok(got) && got == m,
            numeric_token(lower_of(s@)) is None ==> (r matches Err(e) && e matches
                Error::UnknownNumeric(t) && t@ == s@),
    {
        let low = lowercase(s);
        if low == "o".to_owned() || low == "oct".to_owned() || low == "octal".to_owned() {
            Ok(Numeric::Octal)
        } else if low == "d".to_owned() || low == "dec".to_owned() || low == "decimal".to_owned() {
            Ok(Numeric::Decimal)
        } else if low == "h".to_owned() || low == "x".to_owned() || low == "hex".to_owned()
            || low == "hexadecimal".to_owned() {
            Ok(Numeric::Hexadecimal)
        } else {
            Err(Error::UnknownNumeric(s.to_owned()))
        }
    }
}

} // verus!
