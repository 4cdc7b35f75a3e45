//! Whether a position on a line lies inside a quoted literal.
use vstd::prelude::*;
use vstd::string::StringSliceAdditionalSpecFns;

verus! {

/// A quote of kind `q` that starts before byte `index` is closed at or
/// after it; a backslash escapes the next byte except in backtick quotes.
pub open spec fn has_quote_end(b: Seq<u8>, index: int, q: u8) -> bool
    decreases b.len() - index,
{
    if index < 0 || index >= b.len() {
        false
    } else if b[index] == 0x5C && q != 0x60 {
        if index + 2 < b.len() {
            has_quote_end(b, index + 2, q)
        } else {
            false
        }
    } else if b[index] == q {
        true
    } else {
        has_quote_end(b, index + 1, q)
    }
}

/// A byte that can open a quoted region: `'`, `"`, and `` ` `` when
/// backticks are tracked.
pub open spec fn opens_quote(c: u8, track_backticks: bool) -> bool {
    c == 0x27 || c == 0x22 || (track_backticks && c == 0x60)
}

/// Reading from byte `index` with the given open quote: whether the byte
/// `marker` turns out to lie inside a quote.
pub open spec fn quoted_at(b: Seq<u8>, marker: int, track_backticks: bool, index: int, quote: Option<u8>) -> bool
    decreases b.len() - index,
{
    if index < 0 || index > marker || index >= b.len() {
        false
    } else if index == marker {
        quote is Some
    } else {
        match quote {
            Some(q) => if b[index] == 0x5C && q != 0x60 {
                quoted_at(b, marker, track_backticks, if index + 2 < b.len() { index + 2 } else { b.len() as int }, quote)
            } else if b[index] == q {
                quoted_at(b, marker, track_backticks, index + 1, None)
            } else {
                quoted_at(b, marker, track_backticks, index + 1, quote)
            },
            None => {
                let c = b[index];
                if opens_quote(c, track_backticks) && has_quote_end(b, index + 1, c) {
                    quoted_at(b, marker, track_backticks, index + 1, Some(c))
                } else {
                    quoted_at(b, marker, track_backticks, index + 1, None)
                }
            },
        }
    }
}

fn quote_end(bytes: &[u8], index: usize, quote: u8) -> (r: bool)
    ensures
        r == has_quote_end(bytes@, index as int, quote),
{
    let n = bytes.len();
    let mut i = index;
    while i < n
        invariant
            n == bytes@.len(),
            has_quote_end(bytes@, index as int, quote) == has_quote_end(bytes@, i as int, quote),
        decreases n - i,
    {
        if bytes[i] == 0x5C && quote != 0x60 {
            if n - i < 2 {
                return false;
            }
            i = i + 2;
        } else if bytes[i] == quote {
            return true;
        } else {
            i = i + 1;
        }
    }
    false
}

/// Whether byte `marker` of `text` lies inside a single- or double-quoted
/// (and, when `track_backticks`, backtick-quoted) region that closes on the
/// same text. Only quotes that do close open a region.
pub fn marker_is_inside_quoted_region(text: &str, marker: usize, track_backticks: bool) -> (r: bool)
    ensures
        r == quoted_at(text.spec_bytes(), marker as int, track_backticks, 0, None),
{
    let bytes = text.as_bytes();
    let n = bytes.len();
    let mut quote: Option<u8> = None;
    let mut index: usize = 0;
    while index <= marker && index < n
        invariant
            n == bytes@.len(),
            bytes@ == text.spec_bytes(),
            index <= n,
            quoted_at(bytes@, marker as int, track_backticks, 0, None) == quoted_at(
                bytes@,
                marker as int,
                track_backticks,
                index as int,
                quote,
            ),
        decreases n - index,
    {
        if index == marker {
            return quote.is_some();
        }
        match quote {
            Some(active) => {
                if bytes[index] == 0x5C && active != 0x60 {
                    index = if n - index > 2 { index + 2 } else { n };
                } else if bytes[index] == active {
                    quote = None;
                    index = index + 1;
                } else {
                    index = index + 1;
                }
            },
            None => {
                let c = bytes[index];
                if (c == 0x27 || c == 0x22 || (track_backticks && c == 0x60)) && quote_end(bytes, index + 1, c) {
                    quote = Some(c);
                }
                index = index + 1;
            },
        }
    }
    false
}

} // verus!
