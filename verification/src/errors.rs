use vstd::prelude::*;

verus! {

/// What the voting protocol rejects.
#[derive(Debug)]
pub enum VoteError {
    /// The ballot is malformed or does not balance; the text says how.
    InvalidBallot(String),
    /// A requested note position lies outside the snapshot.
    OutOfRange(usize),
    /// The nullifier, in lower-case hex, is already used.
    DoubleNullifier(String),
    /// The election requires spend authorization signatures and the ballot
    /// has none.
    MissingSignature,
    /// A spend authorization signature or the binding signature does not
    /// verify.
    InvalidSignature,
    /// The zero-knowledge proof of an action does not verify.
    InvalidProof,
    /// An anchor of the ballot is not the election's.
    InvalidAnchor,
}

/// The exit code for invalid input.
pub const EXIT_INVALID_INPUT: u8 = 2;

/// The exit code for a violation of the protocol.
pub const EXIT_PROTOCOL_VIOLATION: u8 = 3;

impl VoteError {
    /// Whether the error is a violation of the protocol: a nullifier used
    /// twice, a signature or proof that does not verify or is missing, or an
    /// anchor that is not the election's. The other errors are invalid input.
    pub open spec fn is_protocol_violation(&self) -> bool {
        match self {
            VoteError::InvalidBallot(_) => false,
            VoteError::OutOfRange(_) => false,
            VoteError::DoubleNullifier(_) => true,
            VoteError::MissingSignature => true,
            VoteError::InvalidSignature => true,
            VoteError::InvalidProof => true,
            VoteError::InvalidAnchor => true,
        }
    }

    /// The exit code of a command that fails with this error: 3 for a
    /// violation of the protocol, 2 for invalid input.
    pub fn exit_code(&self) -> (code: u8)
        ensures
            code == if self.is_protocol_violation() {
                EXIT_PROTOCOL_VIOLATION
            } else {
                EXIT_INVALID_INPUT
            },
    {
        match self {
            VoteError::InvalidBallot(_) => EXIT_INVALID_INPUT,
            VoteError::OutOfRange(_) => EXIT_INVALID_INPUT,
            VoteError::DoubleNullifier(_) => EXIT_PROTOCOL_VIOLATION,
            VoteError::MissingSignature => EXIT_PROTOCOL_VIOLATION,
            VoteError::InvalidSignature => EXIT_PROTOCOL_VIOLATION,
            VoteError::InvalidProof => EXIT_PROTOCOL_VIOLATION,
            VoteError::InvalidAnchor => EXIT_PROTOCOL_VIOLATION,
        }
    }
}

} // verus!
