use vstd::prelude::*;
use vstd::string::StringExecFns;

use crate::util::arn::{arn_fields, AWSResource};
use crate::util::text::{starts_with, starts_with_spec, str_eq, trim_start_matches, trim_start_spec};

verus! {

/// A Glacier vault: the account and region it lives in, and its name.
#[derive(Debug, Clone)]
pub struct GlacierVaultSpec {
    account_id: String,
    region: String,
    vault_name: String,
}

#[derive(Debug, PartialEq, Eq, Structural)]
pub enum GlacierVaultARNError {
    NotGlacierVault,
    MalformedVaultIdentifier,
}

/// The vault named by an AWS resource given as `(resource type, account id, region, id)`:
/// a `glacier` resource whose id starts with `vaults/`; the name is the id with every leading
/// `vaults/` removed.
pub open spec fn vault_from_fields(f: (Seq<char>, Seq<char>, Seq<char>, Seq<char>)) -> Result<
    (Seq<char>, Seq<char>, Seq<char>),
    GlacierVaultARNError,
> {
    if f.0 != "glacier"@ {
        Err(GlacierVaultARNError::NotGlacierVault)
    } else if !starts_with_spec(f.3, "vaults/"@) {
        Err(GlacierVaultARNError::MalformedVaultIdentifier)
    } else {
        Ok((f.1, f.2, trim_start_spec(f.3, "vaults/"@)))
    }
}

/// The vault named by an ARN; an ARN that does not parse is not a Glacier vault.
pub open spec fn vault_from_arn(arn: Seq<char>) -> Result<
    (Seq<char>, Seq<char>, Seq<char>),
    GlacierVaultARNError,
> {
    match arn_fields(arn) {
        Some(f) => vault_from_fields(f),
        None => Err(GlacierVaultARNError::NotGlacierVault),
    }
}

impl GlacierVaultSpec {
    pub closed spec fn spec_account_id(&self) -> Seq<char> {
        self.account_id@
    }

    pub closed spec fn spec_region(&self) -> Seq<char> {
        self.region@
    }

    pub closed spec fn spec_vault_name(&self) -> Seq<char> {
        self.vault_name@
    }

    /// `(account id, region, vault name)`.
    pub open spec fn fields(&self) -> (Seq<char>, Seq<char>, Seq<char>) {
        (self.spec_account_id(), self.spec_region(), self.spec_vault_name())
    }

    pub fn account_id(&self) -> (res: &str)
        ensures
            res@ == self.spec_account_id(),
    {
        self.account_id.as_str()
    }

    pub fn region(&self) -> (res: &str)
        ensures
            res@ == self.spec_region(),
    {
        self.region.as_str()
    }

    pub fn vault_name(&self) -> (res: &str)
        ensures
            res@ == self.spec_vault_name(),
    {
        self.vault_name.as_str()
    }

    /// The vault that an AWS resource names.
    pub fn try_from_resource(resource: &AWSResource) -> (res: Result<
        GlacierVaultSpec,
        GlacierVaultARNError,
    >)
        ensures
            match vault_from_fields(resource.fields()) {
                Ok(f) => res matches Ok(v) && v.fields() == f,
                Err(e) => res == Err::<GlacierVaultSpec, GlacierVaultARNError>(e),
            },
    {
        if !str_eq(resource.resource_type(), "glacier") {
            return Err(GlacierVaultARNError::NotGlacierVault);
        }
        if !starts_with(resource.id(), "vaults/") {
            return Err(GlacierVaultARNError::MalformedVaultIdentifier);
        }
        proof {
            reveal_strlit("vaults/");
        }
        let vault_name = String::from_str(trim_start_matches(resource.id(), "vaults/"));
        Ok(
            GlacierVaultSpec {
                account_id: String::from_str(resource.account_id()),
                region: String::from_str(resource.region()),
                vault_name,
            },
        )
    }

    /// The vault that an ARN names.
    pub fn try_from(arn: &str) -> (res: Result<GlacierVaultSpec, GlacierVaultARNError>)
        ensures
            match vault_from_arn(arn@) {
                Ok(f) => res matches Ok(v) && v.fields() == f,
                Err(e) => res == Err::<GlacierVaultSpec, GlacierVaultARNError>(e),
            },
    {
        let resource = match AWSResource::try_from(arn) {
            Ok(r) => r,
            Err(_) => {
                return Err(GlacierVaultARNError::NotGlacierVault);
            },
        };
        Self::try_from_resource(&resource)
    }
}

pub fn parse_glacier_vault_arn(arn: &str) -> (res: Result<GlacierVaultSpec, GlacierVaultARNError>)
    ensures
        match vault_from_arn(arn@) {
            Ok(f) => res matches Ok(v) && v.fields() == f,
            Err(e) => res == Err::<GlacierVaultSpec, GlacierVaultARNError>(e),
        },
{
    GlacierVaultSpec::try_from(arn)
}

} // verus!
