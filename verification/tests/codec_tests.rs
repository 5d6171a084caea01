use solana_dapp::codec::{encode_payload, read_slot, write_slot_record, USER_STATE_DATA_MAX_LEN};
use solana_dapp::error::SolanaDAppError;
use solana_dapp::state::{bytes_eq, clone_bytes, User};

fn fresh_slot() -> Vec<u8> {
    vec![0u8; USER_STATE_DATA_MAX_LEN]
}

#[test]
fn zero_slot_reads_as_default() {
    let slot = fresh_slot();
    let u = read_slot(&slot);
    assert_eq!(u.online, 0);
    assert!(u.friends.is_empty());
}

#[test]
fn default_record_is_offline_and_friendless() {
    let u = User::default();
    assert_eq!(u.online, 0);
    assert!(u.friends.is_empty());
}

#[test]
fn encode_default_record_exact_bytes() {
    let u = User::default();
    let payload = encode_payload(&u);
    // online byte, then a zero little-endian 32-bit friend count.
    assert_eq!(payload, vec![0u8, 0, 0, 0, 0]);
}

#[test]
fn encode_one_friend_exact_bytes() {
    let mut u = User::default();
    u.online = 1;
    u.add_friend(vec![b'a', b'b']);
    let payload = encode_payload(&u);
    let expected = vec![
        1u8, // online
        1, 0, 0, 0, // one friend
        2, 0, 0, 0, b'a', b'b', // key, length-prefixed
        0, 0, 0, 0, // empty annotation
    ];
    assert_eq!(payload, expected);
}

#[test]
fn write_then_read_round_trips() {
    let mut u = User::default();
    u.add_friend(vec![1, 2, 3]);
    u.add_friend(vec![9]);
    u.set_online();
    let mut slot = fresh_slot();
    assert!(write_slot_record(&mut slot, &u).is_ok());
    let back = read_slot(&slot);
    assert_eq!(back, u);
}

#[test]
fn write_leaves_stale_bytes_untouched() {
    let mut slot = fresh_slot();
    slot[999_999] = 0xAB;
    slot[100] = 0xCD;
    let u = User::default();
    assert!(write_slot_record(&mut slot, &u).is_ok());
    assert_eq!(slot.len(), USER_STATE_DATA_MAX_LEN);
    assert_eq!(slot[999_999], 0xAB);
    assert_eq!(slot[100], 0xCD);
    // the five payload bytes and the prefix were rewritten
    assert_eq!(&slot[0..9], &[5, 0, 0, 0, 0, 0, 0, 0, 0]);
}

#[test]
fn length_prefix_past_end_reads_as_default() {
    let mut slot = fresh_slot();
    // claims a payload longer than the slot can hold
    let l: u32 = 999_997;
    slot[0..4].copy_from_slice(&l.to_le_bytes());
    let u = read_slot(&slot);
    assert_eq!(u, User::default());
}

#[test]
fn corrupt_payload_reads_as_default() {
    let mut slot = fresh_slot();
    // a 3-byte payload is too short to even hold the friend count
    slot[0] = 3;
    slot[4] = 7;
    slot[5] = 7;
    slot[6] = 7;
    let u = read_slot(&slot);
    assert_eq!(u, User::default());
}

#[test]
fn trailing_garbage_in_payload_reads_as_default() {
    // a valid default record followed by one extra declared byte
    let mut slot = fresh_slot();
    slot[0] = 6; // payload length 6: online + count + one stray byte
    let u = read_slot(&slot);
    assert_eq!(u, User::default());
}

#[test]
fn oversized_record_is_rejected_and_slot_unchanged() {
    let mut u = User::default();
    u.add_friend(vec![7u8; USER_STATE_DATA_MAX_LEN]);
    let mut slot = fresh_slot();
    slot[0] = 42;
    let before = slot.clone();
    let r = write_slot_record(&mut slot, &u);
    assert_eq!(r, Err(SolanaDAppError::RecordTooLarge));
    assert_eq!(slot, before);
}

#[test]
fn add_friend_then_has_friend() {
    let mut u = User::default();
    assert!(!u.has_friend(&vec![5, 6]));
    assert!(u.add_friend(vec![5, 6]));
    assert!(u.has_friend(&vec![5, 6]));
    // a second add reports "already friends" and changes nothing
    let before = u.clone();
    assert!(!u.add_friend(vec![5, 6]));
    assert_eq!(u, before);
}

#[test]
fn remove_absent_friend_is_noop() {
    let mut u = User::default();
    u.add_friend(vec![1]);
    let before = u.clone();
    assert!(!u.remove_friend(&vec![2]));
    assert_eq!(u, before);
    assert!(u.remove_friend(&vec![1]));
    assert!(u.friends.is_empty());
}

#[test]
fn toggle_online_offline() {
    let mut u = User::default();
    assert_eq!(u.online, 0);
    u.set_online();
    assert_eq!(u.online, 1);
    u.set_offline();
    assert_eq!(u.online, 0);
    // offline twice stays offline
    u.set_offline();
    assert_eq!(u.online, 0);
}

#[test]
fn remove_middle_friend_round_trips() {
    let mut u = User::default();
    u.add_friend(vec![1]);
    u.add_friend(vec![2]);
    u.add_friend(vec![3]);
    assert!(u.remove_friend(&vec![2]));
    assert_eq!(
        u.friends,
        vec![(vec![1u8], Vec::new()), (vec![3u8], Vec::new())]
    );
    let mut slot = fresh_slot();
    assert!(write_slot_record(&mut slot, &u).is_ok());
    assert_eq!(read_slot(&slot), u);
}

#[test]
fn duplicate_keys_in_payload_read_as_default() {
    // a hand-built payload carrying the same key twice does not decode
    let mut slot = fresh_slot();
    let payload = vec![
        0u8, // online
        2, 0, 0, 0, // two friends
        1, 0, 0, 0, 7, 0, 0, 0, 0, // key [7], empty annotation
        1, 0, 0, 0, 7, 0, 0, 0, 0, // the same key again
    ];
    slot[0..4].copy_from_slice(&(payload.len() as u32).to_le_bytes());
    slot[4..4 + payload.len()].copy_from_slice(&payload);
    assert_eq!(read_slot(&slot), User::default());
}

#[test]
fn distinct_keys_in_payload_decode() {
    // the same payload with the second key changed decodes fine
    let mut slot = fresh_slot();
    let payload = vec![
        1u8, // online
        2, 0, 0, 0, // two friends
        1, 0, 0, 0, 7, 0, 0, 0, 0, // key [7], empty annotation
        1, 0, 0, 0, 8, 0, 0, 0, 0, // key [8], empty annotation
    ];
    slot[0..4].copy_from_slice(&(payload.len() as u32).to_le_bytes());
    slot[4..4 + payload.len()].copy_from_slice(&payload);
    let u = read_slot(&slot);
    assert_eq!(u.online, 1);
    assert_eq!(u.friends, vec![(vec![7u8], Vec::new()), (vec![8u8], Vec::new())]);
}

#[test]
fn bytes_helpers() {
    let a = vec![1u8, 2, 3];
    let b = clone_bytes(&a);
    assert_eq!(a, b);
    assert!(bytes_eq(&a, &b));
    assert!(!bytes_eq(&a, &vec![1u8, 2]));
    assert!(!bytes_eq(&a, &vec![1u8, 2, 4]));
}
