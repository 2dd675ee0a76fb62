//! Why a message is turned away.
use vstd::prelude::*;

use crate::committee::Round;
use crate::crypto::{Digest, PublicKey};

verus! {

#[derive(Clone, Copy, Debug, PartialEq, Eq)]
pub enum DagError {
    /// A signature does not verify.
    InvalidSignature,
    /// The storage failed.
    StoreError,
    /// The id of a header is not its digest.
    InvalidHeaderId,
    /// A header has a bad worker or bad parents.
    MalformedHeader(Digest),
    /// The author has no stake.
    UnknownAuthority(PublicKey),
    /// The authority counts already.
    AuthorityReuse(PublicKey),
    /// The parents of a header bring too little.
    HeaderRequiresQuorum(Digest),
    /// The votes of a certificate bring too little stake.
    CertificateRequiresQuorum,
    /// The message belongs to a round that has been garbage collected.
    TooOld(Digest, Round),
}

/// What the node does about an error.
#[derive(Clone, Copy, Debug, PartialEq, Eq, Structural)]
pub enum Severity {
    /// The node stops.
    Fatal,
    /// The error is expected in normal work.
    Expected,
    /// The error is worth a warning.
    Warning,
}

impl DagError {
    pub fn severity(&self) -> (r: Severity)
        ensures
            r == match *self {
                DagError::StoreError => Severity::Fatal,
                DagError::TooOld(_, _) => Severity::Expected,
                _ => Severity::Warning,
            },
    {
        match self {
            DagError::StoreError => Severity::Fatal,
            DagError::TooOld(_, _) => Severity::Expected,
            _ => Severity::Warning,
        }
    }
}

} // verus!
