//! Errors of Mercurial type handling.

use vstd::prelude::*;
use vstd::string::StringExecFns;

verus! {

/// What can go wrong when Mercurial data is decoded.
#[derive(Debug)]
pub enum MononokeHgError {
    InvalidSha1Input(String),
    InvalidFragmentList(String),
    InvalidThrift(String, String),
    BlobDeserializeError(String),
    UnknownRevFlags,
}

/// `prefix` followed by `s`.
fn prefixed(prefix: &str, s: &str) -> (r: String)
    ensures
        r@ == prefix@ + s@,
{
    let mut r = String::from_str(prefix);
    r.append(s);
    r
}

impl MononokeHgError {
    /// The human-readable description of the error.
    pub open spec fn spec_message(&self) -> Seq<char> {
        match self {
            MononokeHgError::InvalidSha1Input(s) => "invalid sha-1 input: "@ + s@,
            MononokeHgError::InvalidFragmentList(s) => "invalid fragment list: "@ + s@,
            MononokeHgError::InvalidThrift(name, why) => "invalid Thrift structure '"@ + name@
                + "': "@ + why@,
            MononokeHgError::BlobDeserializeError(s) => "error while deserializing blob for '"@
                + s@ + "'"@,
            MononokeHgError::UnknownRevFlags => "imposssible to parse unknown rev flags"@,
        }
    }

    /// The human-readable description of the error.
    pub fn message(&self) -> (r: String)
        ensures
            r@ == self.spec_message(),
    {
        match self {
            MononokeHgError::InvalidSha1Input(s) => prefixed("invalid sha-1 input: ", s.as_str()),
            MononokeHgError::InvalidFragmentList(s) => prefixed(
                "invalid fragment list: ",
                s.as_str(),
            ),
            MononokeHgError::InvalidThrift(name, why) => {
                let mut r = prefixed("invalid Thrift structure '", name.as_str());
                r.append("': ");
                r.append(why.as_str());
                r
            },
            MononokeHgError::BlobDeserializeError(s) => {
                let mut r = prefixed("error while deserializing blob for '", s.as_str());
                r.append("'");
                r
            },
            MononokeHgError::UnknownRevFlags => String::from_str(
                "imposssible to parse unknown rev flags",
            ),
        }
    }
}

} // verus!
