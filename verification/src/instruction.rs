//! Instruction dispatcher: maps an opcode to a mutation operation, validates
//! the shape of the supplied account list, enforces the authorization
//! precondition, and orchestrates decode, mutate and re-encode of the
//! caller's storage slot.

use vstd::prelude::*;

use crate::codec::{
    decode_slot, encode_record, lemma_decode_slot_wf, lemma_slot_round_trip,
    lemma_write_slot_twice, read_slot, write_slot, write_slot_record, MAX_PAYLOAD_LEN,
    USER_STATE_DATA_MAX_LEN,
};
use crate::error::{ProgramError, SolanaDAppError};
use crate::state::{lemma_add_friend_idempotent, lemma_add_friend_wf, UserView};

verus! {

/// Mathematical model of an account handle: its identity, whether it signed
/// the transaction, and its data buffer.
pub struct AccountView {
    pub key: Seq<u8>,
    pub is_signer: bool,
    pub data: Seq<u8>,
}

/// An account handle as the hosting runtime supplies it: the byte form of
/// its identity, whether it signed the transaction, and its mutable data
/// buffer.
#[derive(Debug, Clone, PartialEq, Eq)]
pub struct Account {
    pub key: Vec<u8>,
    pub is_signer: bool,
    pub data: Vec<u8>,
}

impl View for Account {
    type V = AccountView;

    open spec fn view(&self) -> AccountView {
        AccountView { key: self.key@, is_signer: self.is_signer, data: self.data@ }
    }
}

/// The account list, seen as a sequence of account models.
pub open spec fn accounts_view(s: Seq<Account>) -> Seq<AccountView> {
    Seq::new(s.len(), |i: int| s[i]@)
}

/// The operation an opcode byte selects.
#[derive(Debug, Copy, Clone, PartialEq, Eq, Structural)]
pub enum InstructionType {
    AddFriend,
    RemoveFriend,
    SetStatusOnline,
    SetStatusOffline,
    Unknown,
}

/// The operation selected by each opcode byte: 0 adds a friend, 1 removes
/// one, 2 goes online, 3 goes offline; everything else is unknown.
pub open spec fn opcode_of(opcode: u8) -> InstructionType {
    if opcode == 0 {
        InstructionType::AddFriend
    } else if opcode == 1 {
        InstructionType::RemoveFriend
    } else if opcode == 2 {
        InstructionType::SetStatusOnline
    } else if opcode == 3 {
        InstructionType::SetStatusOffline
    } else {
        InstructionType::Unknown
    }
}

impl From<u8> for InstructionType {
    fn from(opcode: u8) -> (r: InstructionType) {
        match opcode {
            0 => InstructionType::AddFriend,
            1 => InstructionType::RemoveFriend,
            2 => InstructionType::SetStatusOnline,
            3 => InstructionType::SetStatusOffline,
            _ => InstructionType::Unknown,
        }
    }
}

impl vstd::std_specs::convert::FromSpecImpl<u8> for InstructionType {
    open spec fn obeys_from_spec() -> bool {
        true
    }

    open spec fn from_spec(opcode: u8) -> InstructionType {
        opcode_of(opcode)
    }
}

impl InstructionType {
    /// The account arity each operation requires: three for friend
    /// operations (caller, caller's slot, target), two for status operations
    /// (caller, caller's slot); an unknown operation accepts no list.
    pub open spec fn arity_ok(self, n: int) -> bool {
        match self {
            InstructionType::AddFriend | InstructionType::RemoveFriend => n == 3,
            InstructionType::SetStatusOnline | InstructionType::SetStatusOffline => n == 2,
            InstructionType::Unknown => false,
        }
    }

    /// Whether the supplied account list has the arity this operation
    /// requires.
    pub fn check_accounts_count(&self, accounts: &Vec<Account>) -> (r: bool)
        ensures
            r == self.arity_ok(accounts@.len() as int),
    {
        match self {
            InstructionType::AddFriend | InstructionType::RemoveFriend => accounts.len() == 3,
            InstructionType::SetStatusOnline | InstructionType::SetStatusOffline => accounts.len()
                == 2,
            InstructionType::Unknown => false,
        }
    }

    /// The record a friend operation leaves behind.
    pub open spec fn apply_friend(self, r: UserView, key: Seq<u8>) -> UserView {
        match self {
            InstructionType::AddFriend => r.add_friend_spec(key),
            InstructionType::RemoveFriend => r.remove_friend_spec(key),
            _ => r,
        }
    }

    /// The record a status operation leaves behind.
    pub open spec fn apply_status(self, r: UserView) -> UserView {
        match self {
            InstructionType::SetStatusOnline => r.with_online(1),
            InstructionType::SetStatusOffline => r.with_online(0),
            _ => r,
        }
    }

    /// Outcome of a friend operation on a slot: the rewritten slot bytes, or
    /// the error it fails with, the slot untouched.
    pub open spec fn friend_outcome(self, data: Seq<u8>, key: Seq<u8>) -> Result<
        Seq<u8>,
        ProgramError,
    > {
        if data.len() != USER_STATE_DATA_MAX_LEN {
            Err(
                ProgramError::Custom(SolanaDAppError::InvalidUserStateDataLength.code_spec()),
            )
        } else if !(self is AddFriend || self is RemoveFriend) {
            Err(ProgramError::Custom(SolanaDAppError::HandleFriendInstruction.code_spec()))
        } else {
            let r1 = self.apply_friend(decode_slot(data), key);
            if encode_record(r1).len() <= MAX_PAYLOAD_LEN {
                Ok(write_slot(data, r1))
            } else {
                Err(ProgramError::Custom(SolanaDAppError::RecordTooLarge.code_spec()))
            }
        }
    }

    /// Outcome of a status operation on a slot: the rewritten slot bytes, or
    /// the error it fails with, the slot untouched.
    pub open spec fn status_outcome(self, data: Seq<u8>) -> Result<Seq<u8>, ProgramError> {
        if data.len() != USER_STATE_DATA_MAX_LEN {
            Err(
                ProgramError::Custom(SolanaDAppError::InvalidUserStateDataLength.code_spec()),
            )
        } else if !(self is SetStatusOnline || self is SetStatusOffline) {
            Err(ProgramError::Custom(SolanaDAppError::HandleStatusInstruction.code_spec()))
        } else {
            let r1 = self.apply_status(decode_slot(data));
            if encode_record(r1).len() <= MAX_PAYLOAD_LEN {
                Ok(write_slot(data, r1))
            } else {
                Err(ProgramError::Custom(SolanaDAppError::RecordTooLarge.code_spec()))
            }
        }
    }

    /// Decodes the caller's record out of the slot, applies this friend
    /// operation for `target_key`, and rewrites the slot in place. Fails,
    /// leaving the slot untouched, on a wrongly sized slot, a non-friend
    /// operation, or a record grown past the slot's capacity.
    pub fn handle_friend_instruction(
        &self,
        state_acc: &mut Account,
        target_key: &Vec<u8>,
    ) -> (r: Result<(), ProgramError>)
        ensures
            final(state_acc)@.key == old(state_acc)@.key,
            final(state_acc)@.is_signer == old(state_acc)@.is_signer,
            match self.friend_outcome(old(state_acc)@.data, target_key@) {
                Ok(d) => r == Ok::<(), ProgramError>(()) && final(state_acc)@.data == d,
                Err(e) => r == Err::<(), ProgramError>(e) && final(state_acc)@.data == old(
                    state_acc,
                )@.data,
            },
    {
        if state_acc.data.len() != USER_STATE_DATA_MAX_LEN {
            return Err(ProgramError::from(SolanaDAppError::InvalidUserStateDataLength));
        }
        let mut record = read_slot(&state_acc.data);
        match self {
            InstructionType::AddFriend => {
                let key_copy = crate::state::clone_bytes(target_key);
                record.add_friend(key_copy);
            },
            InstructionType::RemoveFriend => {
                record.remove_friend(target_key);
            },
            _ => {
                return Err(ProgramError::from(SolanaDAppError::HandleFriendInstruction));
            },
        }
        match write_slot_record(&mut state_acc.data, &record) {
            Ok(()) => Ok(()),
            Err(e) => Err(ProgramError::from(e)),
        }
    }

    /// Decodes the caller's record out of the slot, applies this status
    /// operation, and rewrites the slot in place. Fails, leaving the slot
    /// untouched, on a wrongly sized slot or a non-status operation.
    pub fn handle_status_instruction(&self, state_acc: &mut Account) -> (r: Result<
        (),
        ProgramError,
    >)
        ensures
            final(state_acc)@.key == old(state_acc)@.key,
            final(state_acc)@.is_signer == old(state_acc)@.is_signer,
            match self.status_outcome(old(state_acc)@.data) {
                Ok(d) => r == Ok::<(), ProgramError>(()) && final(state_acc)@.data == d,
                Err(e) => r == Err::<(), ProgramError>(e) && final(state_acc)@.data == old(
                    state_acc,
                )@.data,
            },
    {
        if state_acc.data.len() != USER_STATE_DATA_MAX_LEN {
            return Err(ProgramError::from(SolanaDAppError::InvalidUserStateDataLength));
        }
        let mut record = read_slot(&state_acc.data);
        match self {
            InstructionType::SetStatusOnline => {
                record.set_online();
            },
            InstructionType::SetStatusOffline => {
                record.set_offline();
            },
            _ => {
                return Err(ProgramError::from(SolanaDAppError::HandleStatusInstruction));
            },
        }
        match write_slot_record(&mut state_acc.data, &record) {
            Ok(()) => Ok(()),
            Err(e) => Err(ProgramError::from(e)),
        }
    }

    /// What a dispatched instruction leaves behind: the account list with
    /// only the slot account's data possibly rewritten, and the result the
    /// caller sees. Arity is checked first, then that the first account
    /// signed; only then is the slot touched.
    pub open spec fn handle_post(
        self,
        av_old: Seq<AccountView>,
        av_new: Seq<AccountView>,
        r: Result<(), ProgramError>,
    ) -> bool {
        if !self.arity_ok(av_old.len() as int) {
            &&& r == Err::<(), ProgramError>(
                ProgramError::Custom(
                    SolanaDAppError::InsufficientAccountsForInstruction.code_spec(),
                ),
            )
            &&& av_new == av_old
        } else if !av_old[0].is_signer {
            &&& r == Err::<(), ProgramError>(ProgramError::MissingRequiredSignature)
            &&& av_new == av_old
        } else {
            let outcome = if self is AddFriend || self is RemoveFriend {
                self.friend_outcome(av_old[1].data, av_old[2].key)
            } else {
                self.status_outcome(av_old[1].data)
            };
            match outcome {
                Ok(d) => {
                    &&& r == Ok::<(), ProgramError>(())
                    &&& av_new == av_old.update(
                        1,
                        AccountView {
                            key: av_old[1].key,
                            is_signer: av_old[1].is_signer,
                            data: d,
                        },
                    )
                },
                Err(e) => {
                    &&& r == Err::<(), ProgramError>(e)
                    &&& av_new == av_old
                },
            }
        }
    }

    /// Validates arity and authorization, then dispatches to the friend or
    /// status handler against the second account's slot.
    pub fn handle(&self, accounts: &mut Vec<Account>) -> (r: Result<(), ProgramError>)
        ensures
            self.handle_post(
                accounts_view(old(accounts)@),
                accounts_view(final(accounts)@),
                r,
            ),
    {
        let ghost av_old = accounts_view(old(accounts)@);
        if !self.check_accounts_count(accounts) {
            return Err(ProgramError::from(SolanaDAppError::InsufficientAccountsForInstruction));
        }
        if !accounts[0].is_signer {
            return Err(ProgramError::MissingRequiredSignature);
        }
        match self {
            InstructionType::AddFriend | InstructionType::RemoveFriend => {
                let target_key = crate::state::clone_bytes(&accounts[2].key);
                let state_acc = &mut accounts[1];
                let r = self.handle_friend_instruction(state_acc, &target_key);
                proof {
                    assert(accounts_view(accounts@) =~= av_old.update(
                        1,
                        accounts@[1]@,
                    ));
                    if accounts@[1]@ == av_old[1] {
                        assert(accounts_view(accounts@) =~= av_old);
                    }
                }
                r
            },
            InstructionType::SetStatusOnline | InstructionType::SetStatusOffline => {
                let state_acc = &mut accounts[1];
                let r = self.handle_status_instruction(state_acc);
                proof {
                    assert(accounts_view(accounts@) =~= av_old.update(
                        1,
                        accounts@[1]@,
                    ));
                    if accounts@[1]@ == av_old[1] {
                        assert(accounts_view(accounts@) =~= av_old);
                    }
                }
                r
            },
            InstructionType::Unknown => Err(
                ProgramError::from(SolanaDAppError::UnknownInstruction),
            ),
        }
    }
}

/// Removing an absent friend leaves the slot's record unchanged: the
/// operation succeeds and the rewritten slot still decodes to the record it
/// held before.
pub proof fn lemma_remove_absent_outcome(data: Seq<u8>, key: Seq<u8>)
    requires
        data.len() == USER_STATE_DATA_MAX_LEN,
        !decode_slot(data).has_friend_key(key),
    ensures
        InstructionType::RemoveFriend.friend_outcome(data, key) is Ok,
        decode_slot(InstructionType::RemoveFriend.friend_outcome(data, key)->Ok_0) == decode_slot(
            data,
        ),
{
    let r0 = decode_slot(data);
    crate::state::lemma_remove_absent_friend_noop(r0, key);
    crate::codec::lemma_decode_slot_fits(data);
    lemma_decode_slot_wf(data);
    lemma_slot_round_trip(data, r0);
}

/// A remove-friend operation on a well-sized slot always succeeds: dropping
/// an entry never lengthens the record's serialized form.
pub proof fn lemma_remove_outcome_ok(data: Seq<u8>, key: Seq<u8>)
    requires
        data.len() == USER_STATE_DATA_MAX_LEN,
    ensures
        InstructionType::RemoveFriend.friend_outcome(data, key) is Ok,
{
    let r0 = decode_slot(data);
    let r1 = r0.remove_friend_spec(key);
    crate::codec::lemma_decode_slot_fits(data);
    if r0.has_friend_key(key) {
        crate::codec::lemma_encode_pairs_remove(r0.friends, r0.friend_index(key));
    }
}

/// A status operation on a well-sized slot always succeeds: flipping the
/// online byte never changes the record's serialized length.
pub proof fn lemma_status_outcome_ok(op: InstructionType, data: Seq<u8>)
    requires
        data.len() == USER_STATE_DATA_MAX_LEN,
        op is SetStatusOnline || op is SetStatusOffline,
    ensures
        op.status_outcome(data) is Ok,
{
    let r0 = decode_slot(data);
    let r1 = op.apply_status(r0);
    crate::codec::lemma_decode_slot_fits(data);
    assert(encode_record(r1).len() == encode_record(r0).len());
}

/// Adding a friend is idempotent on the slot: when an AddFriend of some
/// target succeeds, a second AddFriend of the same target succeeds too and
/// leaves the slot bytes — hence the record — exactly as the first one did.
pub proof fn lemma_add_friend_outcome_idempotent(data: Seq<u8>, key: Seq<u8>)
    requires
        InstructionType::AddFriend.friend_outcome(data, key) is Ok,
    ensures
        ({
            let d1 = InstructionType::AddFriend.friend_outcome(data, key)->Ok_0;
            InstructionType::AddFriend.friend_outcome(d1, key) == Ok::<Seq<u8>, ProgramError>(d1)
        }),
{
    let r0 = decode_slot(data);
    let r1 = r0.add_friend_spec(key);
    let d1 = write_slot(data, r1);
    lemma_decode_slot_wf(data);
    lemma_add_friend_wf(r0, key);
    lemma_slot_round_trip(data, r1);
    lemma_add_friend_idempotent(r0, key);
    lemma_write_slot_twice(data, r1);
}

} // verus!
