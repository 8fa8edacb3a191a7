use messenger::account::{
    decode_mailbox, decode_message, encode_mailbox, encode_message, mailbox_account_discriminator,
    message_account_discriminator, AccountError,
};
use messenger::program::{Mailbox, Message};
use messenger::pubkey::Pubkey;

const MAILBOX_DISCRIMINATOR: [u8; 8] = [239, 86, 144, 166, 102, 68, 64, 45];
const MESSAGE_DISCRIMINATOR: [u8; 8] = [110, 151, 23, 110, 198, 6, 125, 181];

#[test]
fn discriminators_are_digest_prefixes_of_the_kind_names() {
    assert_eq!(mailbox_account_discriminator(), MAILBOX_DISCRIMINATOR.to_vec());
    assert_eq!(message_account_discriminator(), MESSAGE_DISCRIMINATOR.to_vec());
    assert_eq!(
        mailbox_account_discriminator(),
        solana_program::hash::hash(b"account:Mailbox").to_bytes()[..8].to_vec()
    );
}

#[test]
fn empty_mailbox_layout() {
    let bytes = encode_mailbox(&Mailbox { inbox: None });
    let mut expected = MAILBOX_DISCRIMINATOR.to_vec();
    expected.push(0);
    assert_eq!(bytes, expected);
    assert_eq!(decode_mailbox(&bytes), Ok(Mailbox { inbox: None }));
}

#[test]
fn mailbox_round_trip_with_padding() {
    let m = Mailbox { inbox: Some(Pubkey::new_from_array([9; 32])) };
    let mut bytes = encode_mailbox(&m);
    assert_eq!(bytes.len(), 8 + 1 + 32);
    assert_eq!(bytes[8], 1);
    bytes.extend_from_slice(&[0; 7]);
    assert_eq!(decode_mailbox(&bytes), Ok(m));
}

#[test]
fn message_layout() {
    let m = Message {
        from: Pubkey::new_from_array([3; 32]),
        inbox: None,
        ciphertext: b"Hello".to_vec(),
    };
    let bytes = encode_message(&m);
    let mut expected = MESSAGE_DISCRIMINATOR.to_vec();
    expected.extend_from_slice(&[3; 32]);
    expected.push(0);
    expected.extend_from_slice(&[5, 0, 0, 0]);
    expected.extend_from_slice(b"Hello");
    assert_eq!(bytes, expected);
    assert_eq!(decode_message(&bytes), Ok(m));
}

#[test]
fn message_round_trip_with_link_and_padding() {
    let m = Message {
        from: Pubkey::new_from_array([3; 32]),
        inbox: Some(Pubkey::new_from_array([4; 32])),
        ciphertext: vec![0xab; 300],
    };
    let mut bytes = encode_message(&m);
    assert_eq!(bytes.len(), 8 + 32 + 33 + 4 + 300);
    assert_eq!(&bytes[73..77], &[44, 1, 0, 0]);
    bytes.extend_from_slice(&[0; 10]);
    assert_eq!(decode_message(&bytes), Ok(m));
}

#[test]
fn short_data_has_no_discriminator() {
    assert_eq!(decode_mailbox(&[239, 86, 144]), Err(AccountError::DiscriminatorNotFound));
    assert_eq!(decode_message(&[]), Err(AccountError::DiscriminatorNotFound));
}

#[test]
fn other_kind_is_a_mismatch() {
    let bytes = encode_mailbox(&Mailbox { inbox: None });
    assert_eq!(decode_message(&bytes), Err(AccountError::DiscriminatorMismatch));
    let m = Message { from: Pubkey::new_from_array([1; 32]), inbox: None, ciphertext: vec![] };
    assert_eq!(decode_mailbox(&encode_message(&m)), Err(AccountError::DiscriminatorMismatch));
}

#[test]
fn malformed_fields_do_not_deserialize() {
    let mut bad_tag = MAILBOX_DISCRIMINATOR.to_vec();
    bad_tag.push(2);
    assert_eq!(decode_mailbox(&bad_tag), Err(AccountError::DidNotDeserialize));

    let mut cut_key = MAILBOX_DISCRIMINATOR.to_vec();
    cut_key.push(1);
    cut_key.extend_from_slice(&[0; 31]);
    assert_eq!(decode_mailbox(&cut_key), Err(AccountError::DidNotDeserialize));

    let m = Message { from: Pubkey::new_from_array([1; 32]), inbox: None, ciphertext: b"abc".to_vec() };
    let mut cut_text = encode_message(&m);
    cut_text.pop();
    assert_eq!(decode_message(&cut_text), Err(AccountError::DidNotDeserialize));
}
