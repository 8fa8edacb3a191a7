use messenger::address::mailbox_pda;
use messenger::ledger::{Ledger, LedgerError};
use messenger::program::{ChatError, MAX_STRING_BYTES};
use messenger::pubkey::Pubkey;

fn key(b: u8) -> Pubkey {
    Pubkey::new_from_array([b; 32])
}

#[test]
fn test_program() {
    let mut ledger = Ledger::new();
    let alpha = key(7);
    let beta = key(9);

    // no mailboxes exist yet
    let alpha_mailbox = mailbox_pda(&alpha).unwrap();
    let beta_mailbox = mailbox_pda(&beta).unwrap();
    assert!(ledger.mailbox(&alpha_mailbox).is_none());
    assert!(ledger.mailbox(&beta_mailbox).is_none());

    // first message
    let ciphertext: Vec<u8> = "Hello".into();
    let first = ledger.append(alpha, beta, &[1, 2, 3, 4, 5, 6, 7, 8], ciphertext.clone()).unwrap();
    let message = ledger.record(&first).unwrap();
    assert_eq!(message.inbox, None);
    assert_eq!(message.ciphertext, ciphertext);
    assert_eq!(message.from, alpha);
    assert_eq!(ledger.mailbox(&beta_mailbox).unwrap().inbox, Some(first));

    // second message
    let response: Vec<u8> = "Hi! Who's this?".into();
    let second = ledger.append(alpha, beta, &[8, 7, 6, 5, 4, 3, 2, 1], response.clone()).unwrap();
    let message = ledger.record(&second).unwrap();
    assert_eq!(message.inbox, Some(first));
    assert_eq!(message.ciphertext, response);
    assert_eq!(ledger.mailbox(&beta_mailbox).unwrap().inbox, Some(second));
    assert!(ledger.mailbox(&alpha_mailbox).is_none());
}

#[test]
fn conversation_reads_newest_first() {
    let mut ledger = Ledger::new();
    let a = key(1);
    let b = key(2);
    let m1 = ledger.append(a, b, b"seed-one", "Hello".into()).unwrap();
    let m2 = ledger.append(a, b, b"seed-two", "Hi! Who's this?".into()).unwrap();
    let all = ledger.read_all(&b);
    assert_eq!(all.len(), 2);
    assert_eq!(all[0].0, m2);
    assert_eq!(all[0].1.ciphertext, b"Hi! Who's this?".to_vec());
    assert_eq!(all[0].1.inbox, Some(m1));
    assert_eq!(all[1].0, m1);
    assert_eq!(all[1].1.ciphertext, b"Hello".to_vec());
    assert_eq!(all[1].1.inbox, None);
    assert!(ledger.read_all(&a).is_empty());
}

#[test]
fn reply_lands_in_the_senders_mailbox() {
    let mut ledger = Ledger::new();
    let a = key(1);
    let b = key(2);
    let m1 = ledger.append(a, b, b"first", "Hello".into()).unwrap();
    let m2 = ledger.append(b, a, b"second", "Hi! Who's this?".into()).unwrap();
    let to_a = ledger.read_all(&a);
    assert_eq!(to_a.len(), 1);
    assert_eq!(to_a[0].0, m2);
    assert_eq!(to_a[0].1.from, b);
    assert_eq!(to_a[0].1.inbox, None);
    let to_b = ledger.read_all(&b);
    assert_eq!(to_b.len(), 1);
    assert_eq!(to_b[0].0, m1);
    assert_eq!(to_b[0].1.from, a);
}

#[test]
fn chain_of_sends_reads_back_in_reverse() {
    let mut ledger = Ledger::new();
    let from = key(3);
    let to = key(4);
    let mut sent = Vec::new();
    for i in 0..6u8 {
        let k = ledger.append(from, to, &[i, 100], vec![i; i as usize]).unwrap();
        sent.push(k);
    }
    let all = ledger.read_all(&to);
    assert_eq!(all.len(), 6);
    for (j, (k, m)) in all.iter().enumerate() {
        let i = 5 - j;
        assert_eq!(*k, sent[i]);
        assert_eq!(m.ciphertext, vec![i as u8; i]);
        if i == 0 {
            assert_eq!(m.inbox, None);
        } else {
            assert_eq!(m.inbox, Some(sent[i - 1]));
        }
    }
}

#[test]
fn oversize_ciphertext_is_refused_without_change() {
    let mut ledger = Ledger::new();
    let a = key(1);
    let b = key(2);
    let too_long = vec![b'x'; MAX_STRING_BYTES + 1];
    assert_eq!(
        ledger.append(a, b, b"seed", too_long),
        Err(LedgerError::Chat(ChatError::MessageTextTooLarge))
    );
    assert!(ledger.mailbox(&mailbox_pda(&b).unwrap()).is_none());
    assert!(ledger.read_all(&b).is_empty());

    let longest = vec![b'x'; MAX_STRING_BYTES];
    let k = ledger.append(a, b, b"seed", longest.clone()).unwrap();
    assert_eq!(ledger.read_all(&b)[0].0, k);
    assert_eq!(ledger.read_all(&b)[0].1.ciphertext, longest);

    let before = ledger.read_all(&b);
    assert_eq!(
        ledger.append(a, b, b"other", vec![0; 256]),
        Err(LedgerError::Chat(ChatError::MessageTextTooLarge))
    );
    assert_eq!(ledger.read_all(&b), before);
}

#[test]
fn reused_seed_is_refused() {
    let mut ledger = Ledger::new();
    let a = key(1);
    let b = key(2);
    ledger.append(a, b, b"same", "one".into()).unwrap();
    assert_eq!(
        ledger.append(a, b, b"same", "two".into()),
        Err(LedgerError::AccountInUse)
    );
    assert_eq!(ledger.read_all(&b).len(), 1);
}

#[test]
fn seed_naming_the_mailbox_is_refused() {
    let mut ledger = Ledger::new();
    let a = key(1);
    let b = key(2);
    assert_eq!(
        ledger.append(a, b, &b.to_bytes(), "x".into()),
        Err(LedgerError::AccountInUse)
    );
    assert!(ledger.read_all(&b).is_empty());
}

#[test]
fn overlong_seed_has_no_address() {
    let mut ledger = Ledger::new();
    assert_eq!(
        ledger.append(key(1), key(2), &[0u8; 33], "x".into()),
        Err(LedgerError::NoAddress)
    );
}

#[test]
fn two_mailboxes_stay_apart() {
    let mut ledger = Ledger::new();
    let a = key(1);
    let b = key(2);
    let c = key(3);
    let to_b = ledger.append(a, b, b"1", "for b".into()).unwrap();
    let to_c = ledger.append(a, c, b"2", "for c".into()).unwrap();
    let to_b2 = ledger.append(c, b, b"3", "again b".into()).unwrap();
    let bs: Vec<Pubkey> = ledger.read_all(&b).iter().map(|e| e.0).collect();
    let cs: Vec<Pubkey> = ledger.read_all(&c).iter().map(|e| e.0).collect();
    assert_eq!(bs, vec![to_b2, to_b]);
    assert_eq!(cs, vec![to_c]);
}
