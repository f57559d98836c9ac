//! Crate-wide error type.

use vstd::prelude::*;

verus! {

/// `url::ParseError`: why a text is not a URL. Opaque here.
#[verifier::external_type_specification]
#[verifier::external_body]
pub struct ExUrlParseError(url::ParseError);

/// The result type used across the entire crate.
pub type Result<T> = std::result::Result<T, Error>;

/// Why bytes are not the bencoded dictionary that was asked for.
#[derive(Debug)]
pub enum BencodeError {
    /// The bytes are not bencode at all; the parser's own words.
    Syntax(String),
    /// The value is not a dictionary where one is needed, or a dictionary has a key that is
    /// not text.
    NotADictionary,
    /// A key that must be there is missing.
    MissingField(String),
    /// A key stands twice in one dictionary.
    DuplicateField(String),
    /// The value under this key has the wrong type or is out of range.
    InvalidField(String),
}

/// Everything that can go wrong in the library.
#[derive(Debug)]
pub enum Error {
    /// The bytes could not be decoded as valid bencode / metainfo.
    BencodeDecode(BencodeError),
    /// The `pieces` field must be a flat concatenation of 20-byte SHA-1 digests, so its length
    /// must be an exact multiple of 20.
    InvalidPiecesLength(usize),
    /// The info dictionary contained neither `length` (single-file) nor `files` (multi-file),
    /// or contained both, which is malformed.
    InvalidFileLayout,
    /// The raw bencode could not be walked to locate the `info` dictionary's exact byte span,
    /// or a name in the torrent is unsafe.
    MalformedTorrent(String),
    /// The announce URL could not be parsed.
    UrlParse(url::ParseError),
    /// The announce URL used a scheme we don't speak (only http/https/udp).
    UnsupportedScheme(String),
    /// The tracker responded with an explicit failure reason.
    TrackerFailure(String),
    /// A compact peers blob (its length) was not a clean multiple of the per-peer width.
    InvalidPeersData(usize, usize),
    /// A UDP tracker reply was malformed or violated the protocol.
    UdpProtocol(String),
    /// A network operation (UDP send/recv) did not complete in time.
    Timeout,
    /// A peer violated the wire protocol: bad handshake, malformed or oversized message, or an
    /// info-hash mismatch.
    PeerProtocol(String),
    /// A logical inconsistency while writing to disk.
    Storage(String),
}

/// What a [`BencodeError`] says, over plain values and without the parser's own words.
#[verifier::ext_equal]
pub enum BencodeFault {
    Syntax,
    NotADictionary,
    MissingField(Seq<char>),
    DuplicateField(Seq<char>),
    InvalidField(Seq<char>),
}

/// What an [`Error`] says, over plain values.
#[verifier::ext_equal]
pub enum Fault {
    BencodeDecode(BencodeFault),
    InvalidPiecesLength(nat),
    InvalidFileLayout,
    MalformedTorrent(Seq<char>),
    UrlParse,
    UnsupportedScheme(Seq<char>),
    TrackerFailure(Seq<char>),
    InvalidPeersData(nat, nat),
    UdpProtocol(Seq<char>),
    Timeout,
    PeerProtocol(Seq<char>),
    Storage(Seq<char>),
}

impl View for BencodeError {
    type V = BencodeFault;

    open spec fn view(&self) -> BencodeFault {
        match self {
            BencodeError::Syntax(_) => BencodeFault::Syntax,
            BencodeError::NotADictionary => BencodeFault::NotADictionary,
            BencodeError::MissingField(key) => BencodeFault::MissingField(key@),
            BencodeError::DuplicateField(key) => BencodeFault::DuplicateField(key@),
            BencodeError::InvalidField(key) => BencodeFault::InvalidField(key@),
        }
    }
}

impl View for Error {
    type V = Fault;

    open spec fn view(&self) -> Fault {
        match self {
            Error::BencodeDecode(cause) => Fault::BencodeDecode(cause@),
            Error::InvalidPiecesLength(len) => Fault::InvalidPiecesLength(*len as nat),
            Error::InvalidFileLayout => Fault::InvalidFileLayout,
            Error::MalformedTorrent(text) => Fault::MalformedTorrent(text@),
            Error::UrlParse(_) => Fault::UrlParse,
            Error::UnsupportedScheme(scheme) => Fault::UnsupportedScheme(scheme@),
            Error::TrackerFailure(reason) => Fault::TrackerFailure(reason@),
            Error::InvalidPeersData(len, width) => Fault::InvalidPeersData(
                *len as nat,
                *width as nat,
            ),
            Error::UdpProtocol(text) => Fault::UdpProtocol(text@),
            Error::Timeout => Fault::Timeout,
            Error::PeerProtocol(text) => Fault::PeerProtocol(text@),
            Error::Storage(text) => Fault::Storage(text@),
        }
    }
}

/// A result over the model of its value and of its error.
pub open spec fn outcome<T: View>(result: Result<T>) -> std::result::Result<T::V, Fault> {
    match result {
        Ok(value) => Ok(value@),
        Err(error) => Err(error@),
    }
}

} // verus!
