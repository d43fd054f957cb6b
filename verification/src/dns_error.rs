use vstd::prelude::*;

verus! {

/// Everything that can go wrong while decoding DNS wire data or while
/// relaying a request to the configured upstream resolver.
#[derive(Debug, Clone, Copy, PartialEq, Eq, Structural)]
pub enum DNSError {
    /// No upstream resolver address was supplied at startup.
    NoFollowServer,
    /// The datagram is shorter than the fixed 12-byte header; carries the size seen.
    RequestHeaderSizeError(usize),
    /// A question record is truncated after its label sequence.
    QuestionSizeError,
    /// An answer record is truncated after its label sequence.
    AnswerSizeError,
    /// Sending a single-question request to the upstream resolver failed.
    FollowServerRequestError,
    /// The upstream resolver's reply could not be decoded.
    FollowServerParseError,
    /// A label sequence is malformed: a length byte without its text, a
    /// truncated compression pointer, a pointer past the end of the buffer,
    /// a missing terminator, or an unreasonably long pointer chain.
    LabelParsingError,
}

} // verus!
