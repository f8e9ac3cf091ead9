use vstd::prelude::*;
use vstd::string::StringExecFns;

use crate::util::text::str_eq;
use vstd::utf8::is_ascii_chars;

verus! {

/// How fast Glacier makes an archive available for download.
#[derive(Debug, Clone, PartialEq, Eq, Structural)]
pub enum RetrievalTier {
    Expedited,
    Standard,
    Bulk,
}

#[derive(Debug)]
pub enum RetrievalTierParseError {
    InvalidTier(String),
}

/// The lowercase form of `s`, as computed by `str::to_lowercase` (Unicode lowercase mapping).
pub uninterp spec fn lowercase(s: Seq<char>) -> Seq<char>;

/// Calls `str::to_lowercase`.  The contract names the result `lowercase`, and states what
/// the Unicode lowercase mapping is on ASCII text: `A` to `Z` become `a` to `z`, and every
/// other ASCII character stays as it is.
#[verifier::external_body]
fn to_lowercase(s: &str) -> (res: String)
    ensures
        res@ == lowercase(s@),
        is_ascii_chars(s@) ==> res@ == ascii_lowercase(s@),
{
    s.to_lowercase()
}

/// The tier that a lowercase name stands for.
pub open spec fn tier_of(lower: Seq<char>) -> Option<RetrievalTier> {
    if lower == "expedited"@ {
        Some(RetrievalTier::Expedited)
    } else if lower == "standard"@ {
        Some(RetrievalTier::Standard)
    } else if lower == "bulk"@ {
        Some(RetrievalTier::Bulk)
    } else {
        None
    }
}

/// The name Glacier uses for a tier.
pub open spec fn tier_name(tier: RetrievalTier) -> Seq<char> {
    match tier {
        RetrievalTier::Expedited => "Expedited"@,
        RetrievalTier::Standard => "Standard"@,
        RetrievalTier::Bulk => "Bulk"@,
    }
}

/// `s` with the ASCII letters `A` to `Z` turned into `a` to `z`, every other character kept.
pub open spec fn ascii_lowercase(s: Seq<char>) -> Seq<char> {
    s.map_values(|c: char| if 'A' <= c && c <= 'Z' { ((c as u32) + 32) as char } else { c })
}

/// The name of each tier is ASCII, and with its letters lowercased it is the name that
/// parsing accepts for that tier.
pub proof fn lemma_tier_name_parses(tier: RetrievalTier)
    ensures
        is_ascii_chars(tier_name(tier)),
        tier_of(ascii_lowercase(tier_name(tier))) == Some(tier),
{
    reveal_strlit("Expedited");
    reveal_strlit("expedited");
    reveal_strlit("Standard");
    reveal_strlit("standard");
    reveal_strlit("Bulk");
    reveal_strlit("bulk");
    match tier {
        RetrievalTier::Expedited => {
            assert(ascii_lowercase("Expedited"@) =~= "expedited"@);
        },
        RetrievalTier::Standard => {
            assert(ascii_lowercase("Standard"@) =~= "standard"@);
            assert("standard"@ != "expedited"@) by {
                assert("standard"@[0] != "expedited"@[0]);
            }
        },
        RetrievalTier::Bulk => {
            assert(ascii_lowercase("Bulk"@) =~= "bulk"@);
            assert("bulk"@.len() != "expedited"@.len());
            assert("bulk"@.len() != "standard"@.len());
        },
    }
}

/// The tier named by an already lowercased string.
pub fn tier_from_lowercase(lower: &str) -> (res: Option<RetrievalTier>)
    ensures
        res == tier_of(lower@),
{
    if str_eq(lower, "expedited") {
        Some(RetrievalTier::Expedited)
    } else if str_eq(lower, "standard") {
        Some(RetrievalTier::Standard)
    } else if str_eq(lower, "bulk") {
        Some(RetrievalTier::Bulk)
    } else {
        None
    }
}

impl RetrievalTier {
    /// The tier's name as Glacier expects it.
    pub fn to_string(&self) -> (res: String)
        ensures
            res@ == tier_name(*self),
    {
        match self {
            RetrievalTier::Expedited => String::from_str("Expedited"),
            RetrievalTier::Standard => String::from_str("Standard"),
            RetrievalTier::Bulk => String::from_str("Bulk"),
        }
    }

    /// Parses a tier name, ignoring case.
    pub fn try_from(s: &str) -> (res: Result<RetrievalTier, RetrievalTierParseError>)
        ensures
            match tier_of(lowercase(s@)) {
                Some(t) => res == Ok::<RetrievalTier, RetrievalTierParseError>(t),
                None => res matches Err(RetrievalTierParseError::InvalidTier(m)) && m@ == s@,
            },
            forall|t: RetrievalTier|
                #[trigger] tier_name(t) == s@ ==> res == Ok::<RetrievalTier, RetrievalTierParseError>(
                    t,
                ),
    {
        let lower = to_lowercase(s);
        proof {
            assert forall|t: RetrievalTier| #[trigger] tier_name(t) == s@ implies tier_of(
                lowercase(s@),
            ) == Some(t) by {
                lemma_tier_name_parses(t);
            }
        }
        match tier_from_lowercase(lower.as_str()) {
            Some(t) => Ok(t),
            None => Err(RetrievalTierParseError::InvalidTier(String::from_str(s))),
        }
    }
}

pub fn parse_retrieval_tier(s: &str) -> (res: Result<RetrievalTier, RetrievalTierParseError>)
    ensures
        match tier_of(lowercase(s@)) {
            Some(t) => res == Ok::<RetrievalTier, RetrievalTierParseError>(t),
            None => res matches Err(RetrievalTierParseError::InvalidTier(m)) && m@ == s@,
        },
        forall|t: RetrievalTier|
            #[trigger] tier_name(t) == s@ ==> res == Ok::<RetrievalTier, RetrievalTierParseError>(t),
{
    RetrievalTier::try_from(s)
}

} // verus!
