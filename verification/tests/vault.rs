use glacier_stream::util::arn::parse_aws_resource;
use glacier_stream::util::vault::{parse_glacier_vault_arn, GlacierVaultARNError, GlacierVaultSpec};

#[test]
fn vault_arn_parses() {
    let v = parse_glacier_vault_arn("arn:aws:glacier:us-east-2:123456789012:vaults/video-archives").unwrap();
    assert_eq!(v.account_id(), "123456789012");
    assert_eq!(v.region(), "us-east-2");
    assert_eq!(v.vault_name(), "video-archives");
}

#[test]
fn vault_prefix_is_trimmed_repeatedly() {
    let v = GlacierVaultSpec::try_from("arn:aws:glacier:r:1:vaults/vaults/x").unwrap();
    assert_eq!(v.vault_name(), "x");
    let v = GlacierVaultSpec::try_from("arn:aws:glacier:r:1:vaults/").unwrap();
    assert_eq!(v.vault_name(), "");
}

#[test]
fn non_glacier_resource_is_rejected() {
    assert_eq!(
        parse_glacier_vault_arn("arn:aws:s3:us-east-2:1:vaults/v").unwrap_err(),
        GlacierVaultARNError::NotGlacierVault
    );
    assert_eq!(
        parse_glacier_vault_arn("not an arn").unwrap_err(),
        GlacierVaultARNError::NotGlacierVault
    );
}

#[test]
fn vault_id_must_start_with_vaults() {
    assert_eq!(
        parse_glacier_vault_arn("arn:aws:glacier:us-east-2:1:vault/v").unwrap_err(),
        GlacierVaultARNError::MalformedVaultIdentifier
    );
    let r = parse_aws_resource("arn:aws:glacier:us-east-2:1:archives/v").unwrap();
    assert_eq!(
        GlacierVaultSpec::try_from_resource(&r).unwrap_err(),
        GlacierVaultARNError::MalformedVaultIdentifier
    );
}
