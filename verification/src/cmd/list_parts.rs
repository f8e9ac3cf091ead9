use vstd::prelude::*;
use vstd::string::StringSliceAdditionalSpecFns;

use crate::util::hexcode::{hex_decode, spec_hex_decode, to_hash, HexError};
use crate::util::text::{split_char, split_spec, str_eq, views};

verus! {

#[verifier::external_type_specification]
#[verifier::external_body]
pub struct ExParseIntError(std::num::ParseIntError);

/// Whether `s` is a non-empty run of ASCII decimal digits.
pub open spec fn all_digits(s: Seq<char>) -> bool {
    s.len() > 0 && forall|i: int| 0 <= i < s.len() ==> '0' <= #[trigger] s[i] && s[i] <= '9'
}

/// Value of a run of decimal digits.
pub open spec fn digits_value(s: Seq<char>) -> nat
    decreases s.len(),
{
    if s.len() == 0 {
        0
    } else {
        digits_value(s.drop_last()) * 10 + ((s.last() as int) - 48) as nat
    }
}

/// What `u64::from_str` accepts: an optional `+` followed by decimal digits whose value fits.
pub open spec fn parsed_u64(s: Seq<char>) -> Option<u64> {
    let d = if s.len() > 0 && s[0] == '+' {
        s.skip(1)
    } else {
        s
    };
    if all_digits(d) && digits_value(d) <= u64::MAX {
        Some(digits_value(d) as u64)
    } else {
        None
    }
}

/// Calls `u64::from_str` (`str::parse::<u64>`).  The contract states std's documented
/// grammar: an optional `+` sign followed by only decimal digits, with a value that fits;
/// which error comes back otherwise is not stated.
#[verifier::external_body]
fn parse_u64(s: &str) -> (res: Result<u64, std::num::ParseIntError>)
    ensures
        match parsed_u64(s@) {
            Some(v) => res == Ok::<u64, std::num::ParseIntError>(v),
            None => res is Err,
        },
{
    s.parse::<u64>()
}

/// A byte range `start-end` (both ends included).
#[derive(Debug, Clone, Copy, PartialEq, Eq, Structural)]
pub struct Range {
    pub start: u64,
    pub end: u64,
}

#[derive(Debug)]
pub enum RangeParseError {
    InvalidFormat,
    InvalidNumber(std::num::ParseIntError),
}

/// A part of a multipart upload as listed by Glacier.
#[derive(Debug)]
pub struct Part {
    pub range: Range,
    pub tree_hash: [u8; 32],
}

#[derive(Debug)]
pub enum PartListParseError {
    MissingRange,
    InvalidRange(RangeParseError),
    MissingHash,
    InvalidHashLength,
    HexDecodeError(HexError),
}

/// How a range `start-end` parses: `None` for a missing `-`, `Some(Err(0))` / `Some(Err(1))`
/// for a start / end that is not a number, else the range.  Text after a second `-` is
/// ignored.
pub open spec fn spec_range(value: Seq<char>) -> Option<Result<Range, int>> {
    let pieces = split_spec(value, '-');
    if pieces.len() < 2 {
        None
    } else {
        match (parsed_u64(pieces[0]), parsed_u64(pieces[1])) {
            (None, _) => Some(Err(0)),
            (Some(_), None) => Some(Err(1)),
            (Some(s), Some(e)) => Some(Ok(Range { start: s, end: e })),
        }
    }
}

impl Range {
    /// Parses `start-end`.
    pub fn try_from(value: &str) -> (res: Result<Range, RangeParseError>)
        ensures
            match spec_range(value@) {
                None => res matches Err(RangeParseError::InvalidFormat),
                Some(Err(_)) => res matches Err(RangeParseError::InvalidNumber(_)),
                Some(Ok(r)) => res matches Ok(x) && x == r,
            },
    {
        let parts = split_char(value, '-');
        proof {
            assert(views(parts@).len() == parts@.len());
        }
        if parts.len() < 2 {
            return Err(RangeParseError::InvalidFormat);
        }
        proof {
            assert(views(parts@)[0] == parts@[0]@);
            assert(views(parts@)[1] == parts@[1]@);
        }
        let start = match parse_u64(parts[0]) {
            Ok(v) => v,
            Err(e) => {
                return Err(RangeParseError::InvalidNumber(e));
            },
        };
        let end = match parse_u64(parts[1]) {
            Ok(v) => v,
            Err(e) => {
                return Err(RangeParseError::InvalidNumber(e));
            },
        };
        Ok(Range { start, end })
    }
}

/// How a listed part's fields parse, given as `(range text, hex tree hash)`.
pub open spec fn spec_part(range: Option<Seq<char>>, hash: Option<Seq<u8>>) -> Result<
    (Range, Seq<u8>),
    int,
> {
    match range {
        None => Err(0),
        Some(r) => match spec_range(r) {
            None => Err(1),
            Some(Err(_)) => Err(1),
            Some(Ok(range)) => match hash {
                None => Err(2),
                Some(h) => match spec_hex_decode(h) {
                    Err(_) => Err(3),
                    Ok(bytes) => if bytes.len() != 32 {
                        Err(4)
                    } else {
                        Ok((range, bytes))
                    },
                },
            },
        },
    }
}

/// Error code that a part error stands for in `spec_part`.
pub open spec fn part_error_code(e: PartListParseError) -> int {
    match e {
        PartListParseError::MissingRange => 0,
        PartListParseError::InvalidRange(_) => 1,
        PartListParseError::MissingHash => 2,
        PartListParseError::HexDecodeError(_) => 3,
        PartListParseError::InvalidHashLength => 4,
    }
}

impl Part {
    /// Builds a part from the range (`start-end`) and the hex SHA-256 tree hash that Glacier
    /// lists for it.
    pub fn try_from(range_in_bytes: Option<&str>, sha256_tree_hash: Option<&str>) -> (res:
        Result<Part, PartListParseError>)
        ensures
            match spec_part(
                match range_in_bytes {
                    Some(r) => Some(r@),
                    None => None,
                },
                match sha256_tree_hash {
                    Some(h) => Some(h.spec_bytes()),
                    None => None,
                },
            ) {
                Ok((range, bytes)) => res matches Ok(p) && p.range == range && p.tree_hash@
                    == bytes,
                Err(code) => res matches Err(e) && part_error_code(e) == code,
            },
            sha256_tree_hash matches Some(h) ==> (spec_hex_decode(h.spec_bytes()) matches Err(he)
                ==> (res matches Err(PartListParseError::HexDecodeError(e)) ==> e == he)),
    {
        let range_str = match range_in_bytes {
            Some(r) => r,
            None => {
                return Err(PartListParseError::MissingRange);
            },
        };
        let range = match Range::try_from(range_str) {
            Ok(r) => r,
            Err(e) => {
                return Err(PartListParseError::InvalidRange(e));
            },
        };
        let hash_str = match sha256_tree_hash {
            Some(h) => h,
            None => {
                return Err(PartListParseError::MissingHash);
            },
        };
        let hash_bytes = match hex_decode(hash_str) {
            Ok(b) => b,
            Err(e) => {
                return Err(PartListParseError::HexDecodeError(e));
            },
        };
        match to_hash(&hash_bytes) {
            Some(tree_hash) => Ok(Part { range, tree_hash }),
            None => Err(PartListParseError::InvalidHashLength),
        }
    }
}


/// The marker to ask for the next page of parts with: none when Glacier returned no marker,
/// or the marker `null`.
pub fn next_marker(marker: Option<&str>) -> (res: Option<String>)
    ensures
        match marker {
            None => res is None,
            Some(m) => if m@ == "null"@ {
                res is None
            } else {
                res matches Some(s) && s@ == m@
            },
        },
{
    match marker {
        None => None,
        Some(m) => {
            if str_eq(m, "null") {
                None
            } else {
                Some(m.to_string())
            }
        },
    }
}

} // verus!
