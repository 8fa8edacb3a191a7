use messenger::address::{id, message_pda};
use messenger::instruction::{
    decode_send_direct_message, send_direct_mesage, send_instruction_data, Instruction,
    InstructionError,
};
use messenger::ledger::{ExecuteError, Ledger, LedgerError};
use messenger::program::ChatError;
use messenger::pubkey::Pubkey;

fn key(b: u8) -> Pubkey {
    Pubkey::new_from_array([b; 32])
}

fn built(seed: &[u8], ciphertext: &[u8]) -> Instruction {
    let message = message_pda(seed).unwrap();
    send_direct_mesage(key(1), key(2), seed.to_vec(), message, ciphertext.to_vec()).unwrap()
}

#[test]
fn instruction_data_round_trip() {
    let data = send_instruction_data(&b"seed".to_vec(), &b"Hello".to_vec());
    assert_eq!(decode_send_direct_message(&data), Ok((b"seed".to_vec(), b"Hello".to_vec())));
    let mut padded = data.clone();
    padded.extend_from_slice(&[1, 2, 3]);
    assert_eq!(decode_send_direct_message(&padded), Ok((b"seed".to_vec(), b"Hello".to_vec())));
}

#[test]
fn instruction_data_errors() {
    assert_eq!(decode_send_direct_message(&[153, 167]), Err(InstructionError::InstructionMissing));
    let mut other = send_instruction_data(&vec![], &vec![]);
    other[0] ^= 1;
    assert_eq!(decode_send_direct_message(&other), Err(InstructionError::InstructionFallbackNotFound));
    let mut cut = send_instruction_data(&b"seed".to_vec(), &b"Hello".to_vec());
    cut.pop();
    assert_eq!(decode_send_direct_message(&cut), Err(InstructionError::InstructionDidNotDeserialize));
}

#[test]
fn built_instructions_file_messages() {
    let mut ledger = Ledger::new();
    let first = ledger.execute(&built(b"one", b"Hello")).unwrap();
    let second = ledger.execute(&built(b"two", b"Hi! Who's this?")).unwrap();
    assert_eq!(first, message_pda(b"one").unwrap());
    let all = ledger.read_all(&key(2));
    assert_eq!(all.len(), 2);
    assert_eq!(all[0].0, second);
    assert_eq!(all[0].1.from, key(1));
    assert_eq!(all[0].1.inbox, Some(first));
    assert_eq!(all[1].1.ciphertext, b"Hello".to_vec());
}

#[test]
fn rejected_instructions_change_nothing() {
    let mut ledger = Ledger::new();

    let mut ix = built(b"s", b"x");
    ix.program_id = key(9);
    assert_eq!(ledger.execute(&ix), Err(ExecuteError::UnknownProgram));

    let mut ix = built(b"s", b"x");
    ix.data.truncate(6);
    assert_eq!(
        ledger.execute(&ix),
        Err(ExecuteError::Instruction(InstructionError::InstructionMissing))
    );

    let mut ix = built(b"s", b"x");
    ix.accounts.pop();
    assert_eq!(ledger.execute(&ix), Err(ExecuteError::NotEnoughAccountKeys));

    let mut ix = built(b"s", b"x");
    ix.accounts[0].is_signer = false;
    assert_eq!(ledger.execute(&ix), Err(ExecuteError::AccountNotSigner));

    let mut ix = built(b"s", b"x");
    ix.accounts[3].is_writable = false;
    assert_eq!(ledger.execute(&ix), Err(ExecuteError::AccountNotMutable));

    let mut ix = built(b"s", b"x");
    ix.accounts[2].pubkey = key(5);
    assert_eq!(ledger.execute(&ix), Err(ExecuteError::ConstraintSeeds));

    let mut ix = built(b"s", b"x");
    ix.accounts[3].pubkey = message_pda(b"t").unwrap();
    assert_eq!(ledger.execute(&ix), Err(ExecuteError::ConstraintSeeds));

    let mut ix = built(b"s", b"x");
    ix.accounts[4].pubkey = key(3);
    assert_eq!(ledger.execute(&ix), Err(ExecuteError::InvalidProgramId));

    let ix = built(b"s", &[7; 256]);
    assert_eq!(
        ledger.execute(&ix),
        Err(ExecuteError::Ledger(LedgerError::Chat(ChatError::MessageTextTooLarge)))
    );

    assert!(ledger.read_all(&key(2)).is_empty());
    assert_eq!(built(b"s", b"x").program_id, id());
}
