//! Error taxonomy. Every error is terminal for the current invocation and is
//! raised before any byte of the slot is written.

use vstd::prelude::*;

verus! {

/// The dispatcher's own error kinds, surfaced to the host as the numeric
/// code given by [`SolanaDAppError::code`].
#[derive(Debug, Copy, Clone, PartialEq, Eq, Structural)]
pub enum SolanaDAppError {
    /// The slot buffer is not exactly [`crate::codec::USER_STATE_DATA_MAX_LEN`] bytes.
    InvalidUserStateDataLength,
    /// A friend handler was invoked with a non-friend operation.
    HandleFriendInstruction,
    /// A status handler was invoked with a non-status operation.
    HandleStatusInstruction,
    /// The account list does not have the arity the opcode requires.
    InsufficientAccountsForInstruction,
    /// The opcode selects no supported operation.
    UnknownInstruction,
    /// The re-encoded record would not fit beside the length prefix.
    RecordTooLarge,
}

impl SolanaDAppError {
    /// The numeric code each kind is reported under.
    pub open spec fn code_spec(self) -> u32 {
        match self {
            SolanaDAppError::InvalidUserStateDataLength => 0,
            SolanaDAppError::HandleFriendInstruction => 1,
            SolanaDAppError::HandleStatusInstruction => 2,
            SolanaDAppError::InsufficientAccountsForInstruction => 3,
            SolanaDAppError::UnknownInstruction => 4,
            SolanaDAppError::RecordTooLarge => 5,
        }
    }

    /// The numeric code each kind is reported under.
    pub fn code(&self) -> (c: u32)
        ensures
            c == self.code_spec(),
    {
        match self {
            SolanaDAppError::InvalidUserStateDataLength => 0,
            SolanaDAppError::HandleFriendInstruction => 1,
            SolanaDAppError::HandleStatusInstruction => 2,
            SolanaDAppError::InsufficientAccountsForInstruction => 3,
            SolanaDAppError::UnknownInstruction => 4,
            SolanaDAppError::RecordTooLarge => 5,
        }
    }
}

/// Status reported to the hosting runtime when an instruction fails.
#[derive(Debug, Copy, Clone, PartialEq, Eq, Structural)]
pub enum ProgramError {
    /// A program-defined code; see [`SolanaDAppError::code`].
    Custom(u32),
    /// The first account of the instruction did not sign the transaction.
    MissingRequiredSignature,
    /// The instruction payload is not exactly one opcode byte.
    InvalidInstructionData,
}

impl From<SolanaDAppError> for ProgramError {
    fn from(e: SolanaDAppError) -> (r: ProgramError) {
        ProgramError::Custom(e.code())
    }
}

impl vstd::std_specs::convert::FromSpecImpl<SolanaDAppError> for ProgramError {
    open spec fn obeys_from_spec() -> bool {
        true
    }

    open spec fn from_spec(e: SolanaDAppError) -> ProgramError {
        ProgramError::Custom(e.code_spec())
    }
}

} // verus!
