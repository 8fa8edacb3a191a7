use messenger::address::{id, mailbox_pda, message_pda};
use messenger::instruction::{send_direct_mesage, send_instruction_data, system_program_id, AccountMeta};
use messenger::program::{send_direct_message, ChatError, Mailbox, Message, SendDirectMessage};
use messenger::pubkey::Pubkey;

#[test]
fn send_instruction_layout() {
    let sender = Pubkey::new_from_array([1; 32]);
    let receiver = Pubkey::new_from_array([2; 32]);
    let seed = vec![9u8; 8];
    let message = message_pda(&seed).unwrap();
    let ix = send_direct_mesage(sender, receiver, seed.clone(), message, b"Hello".to_vec()).unwrap();
    assert_eq!(ix.program_id, id());
    let mut data = vec![153, 167, 191, 220, 204, 3, 95, 28];
    data.extend_from_slice(&[8, 0, 0, 0]);
    data.extend_from_slice(&seed);
    data.extend_from_slice(&[5, 0, 0, 0]);
    data.extend_from_slice(b"Hello");
    assert_eq!(ix.data, data);
    assert_eq!(send_instruction_data(&seed, &b"Hello".to_vec()), data);
    assert_eq!(
        ix.accounts,
        vec![
            AccountMeta { pubkey: sender, is_signer: true, is_writable: true },
            AccountMeta { pubkey: receiver, is_signer: false, is_writable: false },
            AccountMeta { pubkey: mailbox_pda(&receiver).unwrap(), is_signer: false, is_writable: true },
            AccountMeta { pubkey: message, is_signer: false, is_writable: true },
            AccountMeta { pubkey: system_program_id(), is_signer: false, is_writable: true },
        ]
    );
    assert_eq!(system_program_id().to_bytes(), [0; 32]);
}

#[test]
fn handler_links_the_new_record() {
    let head = Pubkey::new_from_array([7; 32]);
    let mut context = SendDirectMessage {
        from: Pubkey::new_from_array([1; 32]),
        to: Pubkey::new_from_array([2; 32]),
        mailbox: Mailbox { inbox: Some(head) },
        message_key: Pubkey::new_from_array([8; 32]),
        message: Message { from: Pubkey::new_from_array([0; 32]), inbox: None, ciphertext: vec![] },
    };
    assert_eq!(send_direct_message(&mut context, b"Hello".to_vec()), Ok(()));
    assert_eq!(context.message.from, Pubkey::new_from_array([1; 32]));
    assert_eq!(context.message.inbox, Some(head));
    assert_eq!(context.message.ciphertext, b"Hello".to_vec());
    assert_eq!(context.mailbox.inbox, Some(Pubkey::new_from_array([8; 32])));
}

#[test]
fn handler_refuses_long_text() {
    let mut context = SendDirectMessage {
        from: Pubkey::new_from_array([1; 32]),
        to: Pubkey::new_from_array([2; 32]),
        mailbox: Mailbox { inbox: None },
        message_key: Pubkey::new_from_array([8; 32]),
        message: Message { from: Pubkey::new_from_array([0; 32]), inbox: None, ciphertext: vec![] },
    };
    assert_eq!(send_direct_message(&mut context, vec![0; 256]), Err(ChatError::MessageTextTooLarge));
    assert_eq!(context.mailbox.inbox, None);
    assert!(context.message.ciphertext.is_empty());
}
