use vstd::prelude::*;

verus! {

/// Every failure that the codec and the metadata and tracker decoders report.
#[derive(Debug, Clone, Copy, PartialEq, Eq, Structural)]
pub enum TorrentError {
    /// The input breaks the bencode grammar.
    MalformedInput,
    /// The input stops before the value it starts is complete.
    UnexpectedEnd,
    /// A field holds a bencode value of the wrong kind.
    TypeMismatch,
    /// A required dictionary key is absent.
    MissingField,
    /// A byte count is not a multiple of the record size.
    InvalidLength,
    /// Bytes shown as text are not valid UTF-8.
    InvalidUtf8,
    /// A tracker reply is not a bencoded dictionary.
    MalformedResponse,
}

} // verus!
