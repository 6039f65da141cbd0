use vstd::prelude::*;

verus! {

/// Everything that can go wrong while encoding, decoding or resolving.
#[derive(Clone, Copy, Debug, PartialEq, Eq, Structural)]
pub enum DnsError {
    /// The input ended before a complete field could be read.
    TruncatedInput,
    /// A length, a compression pointer or reserved bits are malformed.
    InvalidFormat,
    /// A type or class code that this library does not know.
    UnsupportedField,
    /// The transport failed to deliver the query or the response.
    NetworkError,
    /// No response arrived in time.
    Timeout,
    /// The response carries the TC flag: it is incomplete.
    Truncated,
    /// The response holds neither an answer nor a referral.
    NoAnswer,
    /// The referral chain is longer than the configured bound.
    TooManyRedirections,
}

/// The stage of a resolution at which an error arises.
#[derive(Clone, Copy, Debug, PartialEq, Eq, Structural)]
pub enum Stage {
    /// Encoding a query or decoding a response.
    Codec,
    /// Sending a query and waiting for the response.
    Transport,
    /// Deciding what to do with a response that was decoded.
    Referral,
}

impl DnsError {
    /// Whether trying again may help: only transport failures are transient.
    pub open spec fn spec_is_transient(self) -> bool {
        self == DnsError::NetworkError || self == DnsError::Timeout
    }

    /// The stage at which this error arises.
    pub open spec fn spec_stage(self) -> Stage {
        match self {
            DnsError::TruncatedInput => Stage::Codec,
            DnsError::InvalidFormat => Stage::Codec,
            DnsError::UnsupportedField => Stage::Codec,
            DnsError::NetworkError => Stage::Transport,
            DnsError::Timeout => Stage::Transport,
            DnsError::Truncated => Stage::Referral,
            DnsError::NoAnswer => Stage::Referral,
            DnsError::TooManyRedirections => Stage::Referral,
        }
    }

    /// The stage at which this error arises.
    #[verifier::when_used_as_spec(spec_stage)]
    pub fn stage(self) -> (r: Stage)
        ensures
            r == self.spec_stage(),
    {
        match self {
            DnsError::TruncatedInput => Stage::Codec,
            DnsError::InvalidFormat => Stage::Codec,
            DnsError::UnsupportedField => Stage::Codec,
            DnsError::NetworkError => Stage::Transport,
            DnsError::Timeout => Stage::Transport,
            DnsError::Truncated => Stage::Referral,
            DnsError::NoAnswer => Stage::Referral,
            DnsError::TooManyRedirections => Stage::Referral,
        }
    }

    /// Whether trying again may help: only transport failures are transient.
    #[verifier::when_used_as_spec(spec_is_transient)]
    pub fn is_transient(self) -> (r: bool)
        ensures
            r == self.spec_is_transient(),
    {
        match self {
            DnsError::NetworkError => true,
            DnsError::Timeout => true,
            _ => false,
        }
    }
}

/// Whether `got` is the encoding that `expected` says: these octets, or that
/// error.
pub open spec fn encoding_agrees(
    expected: Result<Seq<u8>, DnsError>,
    got: Result<Vec<u8>, DnsError>,
) -> bool {
    match expected {
        Ok(bytes) => got matches Ok(v) && v@ == bytes,
        Err(e) => got matches Err(error) && error == e,
    }
}

} // verus!
