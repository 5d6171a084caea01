//! Entry-level processing: validates the instruction payload, resolves the
//! opcode, and dispatches.

use vstd::prelude::*;

use crate::error::ProgramError;
use crate::instruction::{accounts_view, opcode_of, Account, AccountView, InstructionType};

verus! {

/// Stateless instruction processor.
pub struct Processor;

impl Processor {
    /// What processing an instruction leaves behind: a payload that is not
    /// exactly one byte is rejected before anything else; an unknown opcode
    /// is rejected carrying the raw opcode as its diagnostic code; a known
    /// opcode behaves as its operation's dispatch says.
    pub open spec fn process_post(
        av_old: Seq<AccountView>,
        av_new: Seq<AccountView>,
        instruction_data: Seq<u8>,
        r: Result<(), ProgramError>,
    ) -> bool {
        if instruction_data.len() != 1 {
            &&& r == Err::<(), ProgramError>(ProgramError::InvalidInstructionData)
            &&& av_new == av_old
        } else if opcode_of(instruction_data[0]) is Unknown {
            &&& r == Err::<(), ProgramError>(ProgramError::Custom(instruction_data[0] as u32))
            &&& av_new == av_old
        } else {
            opcode_of(instruction_data[0]).handle_post(av_old, av_new, r)
        }
    }

    /// Validates that the payload is a single opcode byte, rejects unknown
    /// opcodes with the raw byte as the diagnostic code, and hands known
    /// ones to the dispatcher. The caller's identity (`_program_id`) plays
    /// no part in dispatch.
    pub fn process(
        _program_id: &Vec<u8>,
        accounts: &mut Vec<Account>,
        instruction_data: &Vec<u8>,
    ) -> (r: Result<(), ProgramError>)
        ensures
            Self::process_post(
                accounts_view(old(accounts)@),
                accounts_view(final(accounts)@),
                instruction_data@,
                r,
            ),
    {
        if instruction_data.len() != 1 {
            return Err(ProgramError::InvalidInstructionData);
        }
        let opcode = instruction_data[0];
        let instruction = InstructionType::from(opcode);
        if instruction == InstructionType::Unknown {
            return Err(ProgramError::Custom(opcode as u32));
        }
        instruction.handle(accounts)
    }
}

} // verus!
