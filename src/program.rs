//! The messaging program: mailbox and message records, and the instruction
//! that files a new message in a recipient's mailbox.
use crate::pubkey::Pubkey;
use vstd::prelude::*;

verus! {

/// Largest ciphertext, in bytes, that a message record holds.
pub const MAX_STRING_BYTES: usize = 255;

/// The head record of a recipient's mailbox: the address of the newest
/// message filed there, if any.
#[derive(Clone, Copy, Debug, PartialEq, Eq)]
pub struct Mailbox {
    pub inbox: Option<Pubkey>,
}

/// A message record: its sender, the message filed before it in the same
/// mailbox, and the ciphertext.
#[derive(Debug, PartialEq, Eq)]
pub struct Message {
    pub from: Pubkey,
    pub inbox: Option<Pubkey>,
    pub ciphertext: Vec<u8>,
}

/// What a message record holds, as values.
pub struct MessageView {
    pub from: Pubkey,
    pub inbox: Option<Pubkey>,
    pub ciphertext: Seq<u8>,
}

impl View for Message {
    type V = MessageView;

    open spec fn view(&self) -> MessageView {
        MessageView { from: self.from, inbox: self.inbox, ciphertext: self.ciphertext@ }
    }
}

impl Message {
    /// A copy of the record.
    pub fn duplicate(&self) -> (r: Message)
        ensures
            r@ == self@,
    {
        let mut ciphertext: Vec<u8> = Vec::new();
        let mut i: usize = 0;
        while i < self.ciphertext.len()
            invariant
                i <= self.ciphertext@.len(),
                ciphertext@ == self.ciphertext@.subrange(0, i as int),
            decreases self.ciphertext@.len() - i,
        {
            ciphertext.push(self.ciphertext[i]);
            i = i + 1;
        }
        assert(ciphertext@ =~= self.ciphertext@);
        Message { from: self.from, inbox: self.inbox, ciphertext }
    }
}

/// Why the program refuses to file a message.
#[derive(Clone, Copy, Debug, PartialEq, Eq)]
pub enum ChatError {
    /// The ciphertext is longer than `MAX_STRING_BYTES`.
    MessageTextTooLarge,
}

/// The accounts of one send: the signing sender, the recipient, the
/// recipient's mailbox, and the fresh message record with its address.
pub struct SendDirectMessage {
    pub from: Pubkey,
    pub to: Pubkey,
    pub mailbox: Mailbox,
    pub message_key: Pubkey,
    pub message: Message,
}

/// Files `ciphertext` as the message of `context`: the record takes the
/// sender and the mailbox's current head as its link, and the mailbox's head
/// moves to the record. A ciphertext over `MAX_STRING_BYTES` changes nothing.
pub fn send_direct_message(context: &mut SendDirectMessage, ciphertext: Vec<u8>) -> (r: Result<
    (),
    ChatError,
>)
    ensures
        ciphertext@.len() > MAX_STRING_BYTES ==> r == Err::<(), ChatError>(
            ChatError::MessageTextTooLarge,
        ) && *final(context) == *old(context),
        ciphertext@.len() <= MAX_STRING_BYTES ==> r is Ok && final(context).message@ == (
        MessageView {
            from: old(context).from,
            inbox: old(context).mailbox.inbox,
            ciphertext: ciphertext@,
        }) && final(context).mailbox == (Mailbox { inbox: Some(old(context).message_key) })
            && final(context).from == old(context).from && final(context).to == old(context).to
            && final(context).message_key == old(context).message_key,
{
    if ciphertext.len() > MAX_STRING_BYTES {
        return Err(ChatError::MessageTextTooLarge);
    }
    context.message.from = context.from;
    context.message.ciphertext = ciphertext;
    context.message.inbox = context.mailbox.inbox;
    context.mailbox.inbox = Some(context.message_key);
    Ok(())
}

} // verus!
