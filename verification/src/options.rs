//! Parse configuration: the delimiter and quote bytes of the CSV dialect.

use vstd::prelude::*;

verus! {

/// Configuration for the CSV record decoder: the byte that separates fields
/// and the byte that quotes a field. Both must be ASCII, so that a field or
/// row boundary can never fall inside a multi-byte UTF-8 character.
#[derive(Clone, Copy, PartialEq, Eq, Structural, Debug)]
pub struct ParseOptions {
    pub delimiter: u8,
    pub quote: u8,
}

impl ParseOptions {
    /// Both configured bytes are ASCII.
    pub open spec fn wf(self) -> bool {
        self.delimiter < 0x80 && self.quote < 0x80
    }

    /// Builds options from delimiter and quote characters. Returns `Some`
    /// exactly when both characters are ASCII; anything else cannot act as a
    /// byte-level separator and is rejected before the decoder ever runs.
    pub fn new(delimiter: char, quote: char) -> (r: Option<ParseOptions>)
        ensures
            match r {
                Some(o) => o.wf() && (delimiter as u32) < 0x80 && (quote as u32) < 0x80
                    && o.delimiter == (delimiter as u32) as u8 && o.quote == (quote as u32) as u8,
                None => !((delimiter as u32) < 0x80 && (quote as u32) < 0x80),
            },
    {
        let d = delimiter as u32;
        let q = quote as u32;
        if d < 0x80 && q < 0x80 {
            Some(ParseOptions { delimiter: d as u8, quote: q as u8 })
        } else {
            None
        }
    }
}

impl Default for ParseOptions {
    /// The default dialect: comma-separated fields, double-quoted strings.
    fn default() -> (r: Self)
        ensures
            r.delimiter == 0x2c,
            r.quote == 0x22,
            r.wf(),
    {
        ParseOptions { delimiter: 0x2c, quote: 0x22 }
    }
}

/// The delimiter used when a request does not configure one: a comma.
pub fn default_delimiter() -> (c: char)
    ensures
        c == ',',
        c as u32 == 0x2c,
{
    ','
}

/// The quote character used when a request does not configure one: a double
/// quote.
pub fn default_quote() -> (c: char)
    ensures
        c == '"',
        c as u32 == 0x22,
{
    '"'
}

} // verus!
