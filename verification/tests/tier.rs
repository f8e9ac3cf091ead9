use glacier_stream::util::tier::{parse_retrieval_tier, tier_from_lowercase, RetrievalTier, RetrievalTierParseError};

#[test]
fn tiers_parse_in_any_case() {
    assert_eq!(parse_retrieval_tier("expedited").unwrap(), RetrievalTier::Expedited);
    assert_eq!(parse_retrieval_tier("STANDARD").unwrap(), RetrievalTier::Standard);
    assert_eq!(parse_retrieval_tier("Bulk").unwrap(), RetrievalTier::Bulk);
}

#[test]
fn unknown_tier_keeps_the_input() {
    match RetrievalTier::try_from("Fast") {
        Err(RetrievalTierParseError::InvalidTier(s)) => assert_eq!(s, "Fast"),
        other => panic!("unexpected {:?}", other),
    }
    assert!(parse_retrieval_tier(" bulk").is_err());
}

#[test]
fn lowercase_names_map_to_tiers() {
    assert_eq!(tier_from_lowercase("bulk"), Some(RetrievalTier::Bulk));
    assert_eq!(tier_from_lowercase("Bulk"), None);
}

#[test]
fn tier_names() {
    assert_eq!(RetrievalTier::Expedited.to_string(), "Expedited");
    assert_eq!(RetrievalTier::Standard.to_string(), "Standard");
    assert_eq!(RetrievalTier::Bulk.to_string(), "Bulk");
}

#[test]
fn tier_names_parse_back() {
    for t in [RetrievalTier::Expedited, RetrievalTier::Standard, RetrievalTier::Bulk] {
        assert_eq!(parse_retrieval_tier(&t.to_string()).unwrap(), t);
    }
}
