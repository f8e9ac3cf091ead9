use vstd::prelude::*;
use vstd::string::StringExecFns;

use crate::util::text::{split_char, split_spec, str_eq, views};

verus! {

/// A parsed Amazon Resource Name: `arn:aws:<type>:<region>:<account id>:<id>`.
#[derive(Debug, Clone, PartialEq, Eq)]
pub struct AWSResource {
    resource_type: String,
    account_id: String,
    region: String,
    id: String,
}

#[derive(Debug, PartialEq, Eq, Structural)]
pub enum AWSResourceParseError {
    InvalidFormat,
}

/// The fields of an ARN, as `(resource type, account id, region, id)`: the ARN has exactly
/// six `:`-separated fields and starts with `arn:aws:`.
pub open spec fn arn_fields(arn: Seq<char>) -> Option<(Seq<char>, Seq<char>, Seq<char>, Seq<char>)> {
    let parts = split_spec(arn, ':');
    if parts.len() == 6 && parts[0] == "arn"@ && parts[1] == "aws"@ {
        Some((parts[2], parts[4], parts[3], parts[5]))
    } else {
        None
    }
}

impl AWSResource {
    pub closed spec fn spec_resource_type(&self) -> Seq<char> {
        self.resource_type@
    }

    pub closed spec fn spec_account_id(&self) -> Seq<char> {
        self.account_id@
    }

    pub closed spec fn spec_region(&self) -> Seq<char> {
        self.region@
    }

    pub closed spec fn spec_id(&self) -> Seq<char> {
        self.id@
    }

    /// The fields as `(resource type, account id, region, id)`.
    pub open spec fn fields(&self) -> (Seq<char>, Seq<char>, Seq<char>, Seq<char>) {
        (self.spec_resource_type(), self.spec_account_id(), self.spec_region(), self.spec_id())
    }

    pub fn resource_type(&self) -> (res: &str)
        ensures
            res@ == self.spec_resource_type(),
    {
        self.resource_type.as_str()
    }

    pub fn account_id(&self) -> (res: &str)
        ensures
            res@ == self.spec_account_id(),
    {
        self.account_id.as_str()
    }

    pub fn region(&self) -> (res: &str)
        ensures
            res@ == self.spec_region(),
    {
        self.region.as_str()
    }

    pub fn id(&self) -> (res: &str)
        ensures
            res@ == self.spec_id(),
    {
        self.id.as_str()
    }

    /// Parses an ARN.
    pub fn try_from(arn: &str) -> (res: Result<AWSResource, AWSResourceParseError>)
        ensures
            match arn_fields(arn@) {
                Some(f) => res matches Ok(r) && r.fields() == f,
                None => res == Err::<AWSResource, AWSResourceParseError>(
                    AWSResourceParseError::InvalidFormat,
                ),
            },
    {
        let parts = split_char(arn, ':');
        proof {
            assert(views(parts@).len() == parts@.len());
        }
        if parts.len() != 6 {
            return Err(AWSResourceParseError::InvalidFormat);
        }
        proof {
            assert(views(parts@)[0] == parts@[0]@);
            assert(views(parts@)[1] == parts@[1]@);
            assert(views(parts@)[2] == parts@[2]@);
            assert(views(parts@)[3] == parts@[3]@);
            assert(views(parts@)[4] == parts@[4]@);
            assert(views(parts@)[5] == parts@[5]@);
        }
        if !str_eq(parts[0], "arn") || !str_eq(parts[1], "aws") {
            return Err(AWSResourceParseError::InvalidFormat);
        }
        Ok(
            AWSResource {
                resource_type: String::from_str(parts[2]),
                account_id: String::from_str(parts[4]),
                region: String::from_str(parts[3]),
                id: String::from_str(parts[5]),
            },
        )
    }
}

pub fn parse_aws_resource(arn: &str) -> (res: Result<AWSResource, AWSResourceParseError>)
    ensures
        match arn_fields(arn@) {
            Some(f) => res matches Ok(r) && r.fields() == f,
            None => res == Err::<AWSResource, AWSResourceParseError>(
                AWSResourceParseError::InvalidFormat,
            ),
        },
{
    AWSResource::try_from(arn)
}

} // verus!
