use glacier_stream::util::arn::{parse_aws_resource, AWSResource, AWSResourceParseError};

#[test]
fn test_arn_parsing() {
    let arn_str = "arn:aws:glacier:us-east-2:123456789012:vaults/video-archives";
    let resource = AWSResource::try_from(arn_str).expect("Failed to parse ARN");
    assert_eq!(resource.resource_type(), "glacier");
    assert_eq!(resource.account_id(), "123456789012");
    assert_eq!(resource.region(), "us-east-2");
    assert_eq!(resource.id(), "vaults/video-archives");
}

#[test]
fn arn_with_too_few_fields_is_rejected() {
    let res = parse_aws_resource("arn:aws:glacier:us-east-2:123456789012");
    assert!(matches!(res, Err(AWSResourceParseError::InvalidFormat)));
}

#[test]
fn arn_with_too_many_fields_is_rejected() {
    let res = parse_aws_resource("arn:aws:glacier:us-east-2:1:vaults/a:extra");
    assert!(matches!(res, Err(AWSResourceParseError::InvalidFormat)));
}

#[test]
fn arn_with_wrong_prefix_is_rejected() {
    assert!(parse_aws_resource("urn:aws:glacier:r:1:id").is_err());
    assert!(parse_aws_resource("arn:gcp:glacier:r:1:id").is_err());
    assert!(parse_aws_resource("").is_err());
}

#[test]
fn arn_fields_may_be_empty() {
    let r = parse_aws_resource("arn:aws::::").unwrap();
    assert_eq!(r.resource_type(), "");
    assert_eq!(r.account_id(), "");
    assert_eq!(r.region(), "");
    assert_eq!(r.id(), "");
}

#[test]
fn arn_keeps_non_ascii_text() {
    let r = parse_aws_resource("arn:aws:glacier:eu-süd:42:vaults/é").unwrap();
    assert_eq!(r.region(), "eu-süd");
    assert_eq!(r.id(), "vaults/é");
}
