use messenger::address::{id, mailbox_pda, message_pda, pairwise_address};
use messenger::pubkey::Pubkey;
use std::str::FromStr;

fn ledger_key(k: &Pubkey) -> solana_program::pubkey::Pubkey {
    solana_program::pubkey::Pubkey::new_from_array(k.to_bytes())
}

fn program() -> solana_program::pubkey::Pubkey {
    solana_program::pubkey::Pubkey::from_str("2Ls5MquEmp42AXBxKXX3a9Gu54aPYYVC19tV7RCMKsTt").unwrap()
}

#[test]
fn program_id_matches_its_base58_form() {
    assert_eq!(id().to_bytes(), program().to_bytes());
}

#[test]
fn mailbox_address_is_the_program_address_of_the_owner() {
    let owner = Pubkey::new_from_array([5; 32]);
    let expected = solana_program::pubkey::Pubkey::find_program_address(&[&[5u8; 32]], &program()).0;
    let got = mailbox_pda(&owner).unwrap();
    assert_eq!(got.to_bytes(), expected.to_bytes());
    assert_ne!(got, owner);
}

#[test]
fn message_address_follows_the_seed() {
    let seed = [1u8, 2, 3, 4, 5, 6, 7, 8];
    let expected = solana_program::pubkey::Pubkey::find_program_address(&[&seed], &program()).0;
    assert_eq!(message_pda(&seed).unwrap().to_bytes(), expected.to_bytes());
    assert_ne!(message_pda(&seed), message_pda(&[8, 7, 6, 5, 4, 3, 2, 1]));
}

#[test]
fn message_seed_over_thirty_two_bytes_has_no_address() {
    assert!(message_pda(&[0u8; 33]).is_none());
    assert!(message_pda(&[0u8; 32]).is_some());
}

#[test]
fn pairwise_address_ignores_order() {
    let a = Pubkey::new_from_array([1; 32]);
    let mut high = [1u8; 32];
    high[31] = 2;
    let b = Pubkey::new_from_array(high);
    let ab = pairwise_address(&a, &b).unwrap();
    let ba = pairwise_address(&b, &a).unwrap();
    assert_eq!(ab, ba);
    let expected = solana_program::pubkey::Pubkey::find_program_address(
        &[ledger_key(&a).as_ref(), ledger_key(&b).as_ref()],
        &program(),
    )
    .0;
    assert_eq!(ab.to_bytes(), expected.to_bytes());
}

#[test]
fn pairwise_addresses_of_different_pairs_differ() {
    let a = Pubkey::new_from_array([1; 32]);
    let b = Pubkey::new_from_array([2; 32]);
    let c = Pubkey::new_from_array([3; 32]);
    assert_ne!(pairwise_address(&a, &b), pairwise_address(&a, &c));
    assert_ne!(pairwise_address(&a, &b), pairwise_address(&b, &c));
    assert_ne!(pairwise_address(&a, &b), mailbox_pda(&a));
}
