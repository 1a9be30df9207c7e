//! The ways a peer exchange can fail.
use vstd::prelude::*;

verus! {

/// What a peer did that the protocol does not allow.
#[derive(Debug, Clone, Copy, PartialEq, Eq, Structural)]
pub enum Violation {
    /// A message id outside the known table.
    UnsupportedMessageId(u8),
    /// A block for another piece than the one being downloaded.
    WrongPiece { expected: u32, received: u32 },
    /// A block whose offset or length matches no planned block.
    BlockOutsidePlan { begin: u32, length: usize },
    /// A block for an offset that was already filled.
    DuplicateBlock { begin: u32 },
}

/// A failure of the handshake, of the codec or of a piece download.
#[derive(Debug, Clone, Copy, PartialEq, Eq, Structural)]
pub enum PeerError {
    /// A malformed handshake or message frame (length or shape).
    FramingError,
    /// A message that is well framed but not allowed here.
    ProtocolViolation(Violation),
    /// The peer choked before every block of the piece had arrived.
    ChokedMidTransfer { index: u32 },
    /// The reassembled piece does not hash to the expected digest.
    HashMismatch { index: u32 },
}

} // verus!
