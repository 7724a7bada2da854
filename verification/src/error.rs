//! The failures that the library reports.

use vstd::prelude::*;
use vstd::std_specs::convert::FromSpecImpl;
use crate::bencoding::{BEncodingParseError, DecodeError};

verus! {

/// A failure of the library.
#[derive(Debug)]
pub enum Error {
    /// An address could not be read.
    AddrParseError,
    /// A file or a socket failed.
    Io,
    /// An HTTP request failed.
    Hyper,
    /// A bencoded value lacks a key or holds a value of the wrong kind.
    BEncoding(BEncodingParseError),
    /// The input is not a bencoded value.
    Decode(DecodeError),
    /// The `pieces` string is not a whole number of hashes, or not one hash
    /// for each piece of the content.
    MalformedPieces,
    /// A length in the metainfo is negative, is zero where it must be
    /// positive, or is too large.
    InvalidLength,
    /// A tracker did not answer in time.
    TrackerUnreachable,
    /// A tracker's answer does not have the form that the protocol asks for.
    TrackerMalformedResponse,
    /// A peer broke the protocol.
    PeerProtocolError,
    /// A peer was silent for too long.
    PeerTimeout,
}

impl From<BEncodingParseError> for Error {
    fn from(other: BEncodingParseError) -> (e: Error) {
        Error::BEncoding(other)
    }
}

impl FromSpecImpl<BEncodingParseError> for Error {
    open spec fn obeys_from_spec() -> bool {
        true
    }

    open spec fn from_spec(other: BEncodingParseError) -> Error {
        Error::BEncoding(other)
    }
}

impl From<DecodeError> for Error {
    fn from(other: DecodeError) -> (e: Error) {
        Error::Decode(other)
    }
}

impl FromSpecImpl<DecodeError> for Error {
    open spec fn obeys_from_spec() -> bool {
        true
    }

    open spec fn from_spec(other: DecodeError) -> Error {
        Error::Decode(other)
    }
}

} // verus!
