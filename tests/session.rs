use messenger::channel::{opened_len, opened_text, sealed_len, ChannelError, MAX_PLAINTEXT_BYTES, TAG_BYTES};
use messenger::pubkey::Pubkey;
use messenger::session::{role, Key, Role, SharedKey};

#[test]
fn lesser_key_serves() {
    let low = Pubkey::new_from_array([1; 32]);
    let mut bytes = [1u8; 32];
    bytes[0] = 2;
    let high = Pubkey::new_from_array(bytes);
    assert_eq!(role(&low, &high), Role::Server);
    assert_eq!(role(&high, &low), Role::Client);
}

#[test]
fn order_is_decided_by_the_first_differing_byte() {
    let mut a = [0u8; 32];
    let mut b = [0u8; 32];
    a[5] = 200;
    b[5] = 100;
    b[6] = 255;
    let a = Pubkey::new_from_array(a);
    let b = Pubkey::new_from_array(b);
    assert!(b.precedes(&a));
    assert!(!a.precedes(&b));
    assert_eq!(role(&b, &a), Role::Server);
    assert_eq!(role(&a, &b), Role::Client);
    assert_eq!(role(&a, &b), role(&a, &b));
}

#[test]
fn same_key_takes_the_client_role() {
    let a = Pubkey::new_from_array([4; 32]);
    assert!(!a.precedes(&a));
    assert_eq!(role(&a, &a), Role::Client);
}

#[test]
fn session_keys_keep_their_bytes() {
    let k = SharedKey { receive_key: Key::new([1; 32]), transmit_key: Key::new([2; 32]) };
    assert_eq!(k.receive_key.to_bytes(), [1; 32]);
    assert_eq!(k.transmit_key.to_bytes(), [2; 32]);
}

#[test]
fn sealed_size_adds_the_tag() {
    assert_eq!(sealed_len("Hello world!"), Ok(28));
    assert_eq!(sealed_len(""), Ok(TAG_BYTES));
    let longest = "a".repeat(MAX_PLAINTEXT_BYTES);
    assert_eq!(sealed_len(&longest), Ok(TAG_BYTES + 255));
    let too_long = "a".repeat(256);
    assert_eq!(sealed_len(&too_long), Err(ChannelError::PayloadTooLarge));
}

#[test]
fn truncated_ciphertext_fails_authentication() {
    assert_eq!(opened_len(15), Err(ChannelError::AuthenticationFailed));
    assert_eq!(opened_len(16), Ok(0));
    assert_eq!(opened_len(28), Ok(12));
}

#[test]
fn opened_text_outcomes() {
    assert_eq!(opened_text(0, b"Hello world!".to_vec()), Ok("Hello world!".to_string()));
    assert_eq!(opened_text(-1, b"Hello world!".to_vec()), Err(ChannelError::AuthenticationFailed));
    assert_eq!(opened_text(0, vec![0xff, 0xfe]), Err(ChannelError::InvalidUtf8));
    assert_eq!(opened_text(0, "héllo".as_bytes().to_vec()), Ok("héllo".to_string()));
}
