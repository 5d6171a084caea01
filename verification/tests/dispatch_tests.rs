use solana_dapp::codec::{read_slot, USER_STATE_DATA_MAX_LEN};
use solana_dapp::error::{ProgramError, SolanaDAppError};
use solana_dapp::instruction::{Account, InstructionType};
use solana_dapp::processor::Processor;
use solana_dapp::state::User;

fn fresh_slot() -> Vec<u8> {
    vec![0u8; USER_STATE_DATA_MAX_LEN]
}

fn signer(key: &[u8]) -> Account {
    Account { key: key.to_vec(), is_signer: true, data: Vec::new() }
}

fn plain(key: &[u8]) -> Account {
    Account { key: key.to_vec(), is_signer: false, data: Vec::new() }
}

fn slot_account(key: &[u8]) -> Account {
    Account { key: key.to_vec(), is_signer: false, data: fresh_slot() }
}

fn run(opcode: u8, accounts: &mut Vec<Account>) -> Result<(), ProgramError> {
    let program_id = vec![0u8; 32];
    Processor::process(&program_id, accounts, &vec![opcode])
}

#[test]
fn scenario_add_remove_toggle() {
    // AddFriend with signer A, slot S, target B
    let mut accounts = vec![signer(b"A"), slot_account(b"A"), plain(b"B")];
    assert_eq!(run(0, &mut accounts), Ok(()));
    let u = read_slot(&accounts[1].data);
    assert_eq!(u.online, 0);
    assert_eq!(u.friends, vec![(b"B".to_vec(), Vec::new())]);

    // adding B again yields the identical record and slot
    let before = accounts[1].data.clone();
    assert_eq!(run(0, &mut accounts), Ok(()));
    assert_eq!(accounts[1].data, before);
    assert_eq!(read_slot(&accounts[1].data), u);

    // removing B empties the friend set
    assert_eq!(run(1, &mut accounts), Ok(()));
    let u = read_slot(&accounts[1].data);
    assert_eq!(u.friends, Vec::<(Vec<u8>, Vec<u8>)>::new());

    // going online flips the flag; two accounts suffice
    let mut status_accounts = vec![accounts[0].clone(), accounts[1].clone()];
    assert_eq!(run(2, &mut status_accounts), Ok(()));
    let u = read_slot(&status_accounts[1].data);
    assert_eq!(u.online, 1);
    assert!(u.friends.is_empty());

    // and offline again
    assert_eq!(run(3, &mut status_accounts), Ok(()));
    assert_eq!(read_slot(&status_accounts[1].data).online, 0);
}

#[test]
fn remove_absent_friend_leaves_record() {
    let mut accounts = vec![signer(b"A"), slot_account(b"A"), plain(b"B")];
    assert_eq!(run(0, &mut accounts), Ok(()));
    let before = read_slot(&accounts[1].data);

    let mut other_target = vec![accounts[0].clone(), accounts[1].clone(), plain(b"C")];
    assert_eq!(run(1, &mut other_target), Ok(()));
    assert_eq!(read_slot(&other_target[1].data), before);
}

#[test]
fn add_friend_with_two_accounts_is_rejected() {
    let mut accounts = vec![signer(b"A"), slot_account(b"A")];
    let before = accounts[1].data.clone();
    let r = run(0, &mut accounts);
    assert_eq!(
        r,
        Err(ProgramError::Custom(
            SolanaDAppError::InsufficientAccountsForInstruction.code()
        ))
    );
    assert_eq!(accounts[1].data, before);
}

#[test]
fn status_with_three_accounts_is_rejected() {
    let mut accounts = vec![signer(b"A"), slot_account(b"A"), plain(b"B")];
    let before = accounts[1].data.clone();
    let r = run(2, &mut accounts);
    assert_eq!(
        r,
        Err(ProgramError::Custom(
            SolanaDAppError::InsufficientAccountsForInstruction.code()
        ))
    );
    assert_eq!(accounts[1].data, before);
}

#[test]
fn unsigned_request_is_rejected_before_decode() {
    let mut accounts = vec![plain(b"A"), slot_account(b"A"), plain(b"B")];
    let before = accounts[1].data.clone();
    let r = run(0, &mut accounts);
    assert_eq!(r, Err(ProgramError::MissingRequiredSignature));
    assert_eq!(accounts[1].data, before);
}

#[test]
fn unknown_opcode_carries_the_byte() {
    let mut accounts = vec![signer(b"A"), slot_account(b"A"), plain(b"B")];
    let before = accounts[1].data.clone();
    let r = run(7, &mut accounts);
    assert_eq!(r, Err(ProgramError::Custom(7)));
    assert_eq!(accounts[1].data, before);
}

#[test]
fn reserved_opcode_four_is_rejected() {
    let mut accounts = vec![signer(b"A"), slot_account(b"A")];
    let r = run(4, &mut accounts);
    assert_eq!(r, Err(ProgramError::Custom(4)));
}

#[test]
fn malformed_instruction_payload_is_rejected() {
    let mut accounts = vec![signer(b"A"), slot_account(b"A"), plain(b"B")];
    let program_id = vec![0u8; 32];
    let r = Processor::process(&program_id, &mut accounts, &Vec::new());
    assert_eq!(r, Err(ProgramError::InvalidInstructionData));
    let r = Processor::process(&program_id, &mut accounts, &vec![0, 0]);
    assert_eq!(r, Err(ProgramError::InvalidInstructionData));
}

#[test]
fn wrongly_sized_slot_is_rejected() {
    let mut accounts = vec![
        signer(b"A"),
        Account { key: b"A".to_vec(), is_signer: false, data: vec![0u8; 10] },
        plain(b"B"),
    ];
    let r = run(0, &mut accounts);
    assert_eq!(
        r,
        Err(ProgramError::Custom(
            SolanaDAppError::InvalidUserStateDataLength.code()
        ))
    );
    assert_eq!(accounts[1].data, vec![0u8; 10]);
}

#[test]
fn friend_handler_rejects_status_operation() {
    let mut state = slot_account(b"A");
    let before = state.data.clone();
    let r = InstructionType::SetStatusOnline.handle_friend_instruction(&mut state, &b"B".to_vec());
    assert_eq!(
        r,
        Err(ProgramError::Custom(
            SolanaDAppError::HandleFriendInstruction.code()
        ))
    );
    assert_eq!(state.data, before);
}

#[test]
fn status_handler_rejects_friend_operation() {
    let mut state = slot_account(b"A");
    let before = state.data.clone();
    let r = InstructionType::AddFriend.handle_status_instruction(&mut state);
    assert_eq!(
        r,
        Err(ProgramError::Custom(
            SolanaDAppError::HandleStatusInstruction.code()
        ))
    );
    assert_eq!(state.data, before);
}

#[test]
fn opcode_resolution() {
    assert_eq!(InstructionType::from(0), InstructionType::AddFriend);
    assert_eq!(InstructionType::from(1), InstructionType::RemoveFriend);
    assert_eq!(InstructionType::from(2), InstructionType::SetStatusOnline);
    assert_eq!(InstructionType::from(3), InstructionType::SetStatusOffline);
    assert_eq!(InstructionType::from(4), InstructionType::Unknown);
    assert_eq!(InstructionType::from(255), InstructionType::Unknown);
}

#[test]
fn arity_table() {
    let three = vec![signer(b"A"), slot_account(b"A"), plain(b"B")];
    let two = vec![signer(b"A"), slot_account(b"A")];
    assert!(InstructionType::AddFriend.check_accounts_count(&three));
    assert!(!InstructionType::AddFriend.check_accounts_count(&two));
    assert!(InstructionType::RemoveFriend.check_accounts_count(&three));
    assert!(InstructionType::SetStatusOnline.check_accounts_count(&two));
    assert!(!InstructionType::SetStatusOnline.check_accounts_count(&three));
    assert!(InstructionType::SetStatusOffline.check_accounts_count(&two));
    assert!(!InstructionType::Unknown.check_accounts_count(&two));
    assert!(!InstructionType::Unknown.check_accounts_count(&three));
}

#[test]
fn error_codes_are_stable() {
    assert_eq!(SolanaDAppError::InvalidUserStateDataLength.code(), 0);
    assert_eq!(SolanaDAppError::HandleFriendInstruction.code(), 1);
    assert_eq!(SolanaDAppError::HandleStatusInstruction.code(), 2);
    assert_eq!(SolanaDAppError::InsufficientAccountsForInstruction.code(), 3);
    assert_eq!(SolanaDAppError::UnknownInstruction.code(), 4);
    assert_eq!(SolanaDAppError::RecordTooLarge.code(), 5);
    assert_eq!(
        ProgramError::from(SolanaDAppError::UnknownInstruction),
        ProgramError::Custom(4)
    );
}

#[test]
fn oversized_add_is_rejected_and_slot_unchanged() {
    // a target key so large the re-encoded record cannot fit the slot
    let huge = vec![9u8; USER_STATE_DATA_MAX_LEN];
    let mut accounts = vec![
        signer(b"A"),
        slot_account(b"A"),
        Account { key: huge, is_signer: false, data: Vec::new() },
    ];
    let before = accounts[1].data.clone();
    let r = run(0, &mut accounts);
    assert_eq!(
        r,
        Err(ProgramError::Custom(SolanaDAppError::RecordTooLarge.code()))
    );
    assert_eq!(accounts[1].data, before);
}

#[test]
fn first_use_needs_no_initialize_instruction() {
    // the very first instruction against an all-zero slot succeeds
    let mut accounts = vec![signer(b"A"), slot_account(b"A")];
    assert_eq!(run(2, &mut accounts), Ok(()));
    let u = read_slot(&accounts[1].data);
    assert_eq!(u, User { online: 1, friends: Vec::new() });
}
