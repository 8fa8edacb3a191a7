//! The instruction a sender submits to file a message: the program, the
//! accounts it touches, and its data, a discriminator followed by the
//! message seed and the ciphertext as length-prefixed byte strings.
use crate::account::{
    check_header, discriminator, discriminator_of, lemma_u32_from_le, lemma_u32_le, put_bytes,
    put_u32, read_u32, u32_from_le, u32_le,
};
use crate::address::{id, mailbox_pda, mailbox_seeds, pda, program_key};
use crate::pubkey::Pubkey;
use vstd::prelude::*;
use vstd::string::StringSliceAdditionalSpecFns;

verus! {

/// An account that an instruction names, with whether it must sign and
/// whether the instruction may write it.
#[derive(Clone, Copy, Debug, PartialEq, Eq)]
pub struct AccountMeta {
    pub pubkey: Pubkey,
    pub is_signer: bool,
    pub is_writable: bool,
}

/// An instruction for a program of the ledger.
#[derive(Debug, PartialEq, Eq)]
pub struct Instruction {
    pub program_id: Pubkey,
    pub accounts: Vec<AccountMeta>,
    pub data: Vec<u8>,
}

/// The identifier of the ledger's system program: all zero bytes.
pub open spec fn system_program_key() -> Seq<u8> {
    Seq::new(32, |i: int| 0u8)
}

/// The discriminator of the send instruction.
pub open spec fn send_discriminator() -> Seq<u8> {
    discriminator_of("global:send_direct_message".spec_bytes())
}

/// A byte string as its length in four little-endian bytes, then the bytes.
pub open spec fn bytes_field(b: Seq<u8>) -> Seq<u8> {
    u32_le(b.len()) + b
}

/// The data of a send instruction.
pub open spec fn send_data(message_seed: Seq<u8>, ciphertext: Seq<u8>) -> Seq<u8> {
    send_discriminator() + bytes_field(message_seed) + bytes_field(ciphertext)
}

/// The accounts of a send, in order: the sender, who signs and pays; the
/// recipient; the recipient's mailbox; the new message record; the system
/// program that creates accounts.
pub open spec fn send_accounts(sender: Pubkey, receiver: Pubkey, mailbox: Pubkey, message: Pubkey, system: Pubkey) -> Seq<AccountMeta> {
    seq![
        AccountMeta { pubkey: sender, is_signer: true, is_writable: true },
        AccountMeta { pubkey: receiver, is_signer: false, is_writable: false },
        AccountMeta { pubkey: mailbox, is_signer: false, is_writable: true },
        AccountMeta { pubkey: message, is_signer: false, is_writable: true },
        AccountMeta { pubkey: system, is_signer: false, is_writable: true },
    ]
}

/// The identifier of the system program.
pub fn system_program_id() -> (r: Pubkey)
    ensures
        r.bytes@ == system_program_key(),
{
    let r = Pubkey { bytes: [0u8; 32] };
    assert(r.bytes@ =~= system_program_key());
    r
}

/// Appends `b` as a length-prefixed byte string.
fn put_bytes_field(out: &mut Vec<u8>, b: &Vec<u8>)
    requires
        b@.len() <= u32::MAX,
    ensures
        final(out)@ == old(out)@ + bytes_field(b@),
{
    let ghost start = out@;
    put_u32(out, b.len() as u32);
    put_bytes(out, b.as_slice());
    assert(out@ =~= start + bytes_field(b@));
}

/// The data of a send instruction.
pub fn send_instruction_data(message_seed: &Vec<u8>, ciphertext: &Vec<u8>) -> (r: Vec<u8>)
    requires
        message_seed@.len() <= u32::MAX,
        ciphertext@.len() <= u32::MAX,
    ensures
        r@ == send_data(message_seed@, ciphertext@),
{
    let mut out = discriminator("global:send_direct_message".as_bytes());
    put_bytes_field(&mut out, message_seed);
    put_bytes_field(&mut out, ciphertext);
    assert(out@ =~= send_data(message_seed@, ciphertext@));
    out
}

/// The instruction by which `sender` files `ciphertext` in the mailbox of
/// `receiver`, as the record at `message_pda` derived from `message_seed`.
/// There is none where the program derives no mailbox address for the
/// receiver.
pub fn send_direct_mesage(
    sender: Pubkey,
    receiver: Pubkey,
    message_seed: Vec<u8>,
    message_pda: Pubkey,
    ciphertext: Vec<u8>,
) -> (r: Option<Instruction>)
    requires
        message_seed@.len() <= u32::MAX,
        ciphertext@.len() <= u32::MAX,
    ensures
        match r {
            None => pda(mailbox_seeds(receiver)) is None,
            Some(ix) => {
                &&& pda(mailbox_seeds(receiver)) is Some
                &&& ix.program_id.bytes@ == program_key()
                &&& ix.data@ == send_data(message_seed@, ciphertext@)
                &&& ix.accounts@ == send_accounts(
                    sender,
                    receiver,
                    pda(mailbox_seeds(receiver))->Some_0,
                    message_pda,
                    ix.accounts@[4].pubkey,
                )
                &&& ix.accounts@[4].pubkey.bytes@ == system_program_key()
            },
        },
{
    let mailbox = match mailbox_pda(&receiver) {
        Some(a) => a,
        None => return None,
    };
    let data = send_instruction_data(&message_seed, &ciphertext);
    let system = system_program_id();
    let mut accounts: Vec<AccountMeta> = Vec::new();
    accounts.push(AccountMeta { pubkey: sender, is_signer: true, is_writable: true });
    accounts.push(AccountMeta { pubkey: receiver, is_signer: false, is_writable: false });
    accounts.push(AccountMeta { pubkey: mailbox, is_signer: false, is_writable: true });
    accounts.push(AccountMeta { pubkey: message_pda, is_signer: false, is_writable: true });
    accounts.push(AccountMeta { pubkey: system, is_signer: false, is_writable: true });
    let ix = Instruction { program_id: id(), accounts, data };
    assert(ix.accounts@ =~= send_accounts(sender, receiver, mailbox, message_pda, system));
    Some(ix)
}

/// Why instruction data does not read as a send.
#[derive(Clone, Copy, Debug, PartialEq, Eq)]
pub enum InstructionError {
    /// Fewer than eight bytes: there is no discriminator.
    InstructionMissing,
    /// The discriminator is not the send instruction's.
    InstructionFallbackNotFound,
    /// The arguments after the discriminator are malformed or cut short.
    InstructionDidNotDeserialize,
}

/// The byte string `b`, as a length-prefixed field, stands in `data` at `at`.
pub open spec fn field_at(data: Seq<u8>, at: int, b: Seq<u8>) -> bool {
    &&& b.len() <= u32::MAX
    &&& 0 <= at
    &&& at + 4 + b.len() <= data.len()
    &&& data.subrange(at, at + 4 + b.len()) == bytes_field(b)
}

/// What a field at `at` tells of its length and its bytes.
proof fn lemma_field_at(data: Seq<u8>, at: int, b: Seq<u8>)
    requires
        field_at(data, at, b),
    ensures
        u32_from_le(data.subrange(at, at + 4)) == b.len(),
        data.subrange(at + 4, at + 4 + b.len()) == b,
{
    let e = bytes_field(b);
    assert(data.subrange(at, at + 4) =~= e.subrange(0, 4));
    assert(e.subrange(0, 4) =~= u32_le(b.len()));
    lemma_u32_le(b.len());
    assert(data.subrange(at + 4, at + 4 + b.len()) =~= e.subrange(4, 4 + b.len() as int));
    assert(e.subrange(4, 4 + b.len() as int) =~= b);
}

/// Reads the length-prefixed byte string at `at`.
fn read_bytes_field(data: &[u8], at: usize) -> (r: Option<(Vec<u8>, usize)>)
    ensures
        match r {
            Some((b, next)) => field_at(data@, at as int, b@) && next == at + 4 + b@.len(),
            None => forall|b: Seq<u8>| !#[trigger] field_at(data@, at as int, b),
        },
{
    let len = data.len();
    if len < 4 || at > len - 4 {
        return None;
    }
    let n = read_u32(data, at);
    if len - (at + 4) < n as usize {
        assert forall|b: Seq<u8>| !#[trigger] field_at(data@, at as int, b) by {
            if field_at(data@, at as int, b) {
                lemma_field_at(data@, at as int, b);
            }
        }
        return None;
    }
    let start = at + 4;
    let end = start + n as usize;
    let mut b: Vec<u8> = Vec::new();
    let mut i: usize = start;
    while i < end
        invariant
            start <= i <= end <= data@.len(),
            b@ == data@.subrange(start as int, i as int),
        decreases end - i,
    {
        b.push(data[i]);
        i = i + 1;
    }
    proof {
        lemma_u32_from_le(data@.subrange(at as int, at + 4));
        assert(data@.subrange(at as int, end as int) =~= bytes_field(b@));
    }
    Some((b, end))
}

/// Where the data of a send begins `data`: the discriminator, then the seed
/// field at 8 and the ciphertext field right after it.
proof fn lemma_send_layout(seed: Seq<u8>, ciphertext: Seq<u8>, data: Seq<u8>)
    requires
        seed.len() <= u32::MAX,
        ciphertext.len() <= u32::MAX,
        send_data(seed, ciphertext).is_prefix_of(data),
    ensures
        send_discriminator().is_prefix_of(data),
        field_at(data, 8, seed),
        field_at(data, 12 + seed.len() as int, ciphertext),
{
    let e = send_data(seed, ciphertext);
    let d = send_discriminator();
    let f1 = bytes_field(seed);
    let f2 = bytes_field(ciphertext);
    let l1 = f1.len() as int;
    let l2 = f2.len() as int;
    assert(d.len() == 8);
    assert(data.subrange(0, 8) =~= e.subrange(0, 8));
    assert(e.subrange(0, 8) =~= d);
    assert(data.subrange(8, 8 + l1) =~= e.subrange(8, 8 + l1));
    assert(e.subrange(8, 8 + l1) =~= f1);
    let q = 8 + l1;
    assert(data.subrange(q, q + l2) =~= e.subrange(q, q + l2));
    assert(e.subrange(q, q + l2) =~= f2);
}

/// Two fields at the same place are the same byte string.
proof fn lemma_field_unique(data: Seq<u8>, at: int, b1: Seq<u8>, b2: Seq<u8>)
    requires
        field_at(data, at, b1),
        field_at(data, at, b2),
    ensures
        b1 == b2,
{
    lemma_field_at(data, at, b1);
    lemma_field_at(data, at, b2);
}

/// The arguments of a send, the message seed and the ciphertext, whose
/// encoding begins `data`, if there are such.
pub open spec fn send_args(data: Seq<u8>) -> Option<(Seq<u8>, Seq<u8>)> {
    if exists|s: Seq<u8>, c: Seq<u8>|
        s.len() <= u32::MAX && c.len() <= u32::MAX && #[trigger] send_data(s, c).is_prefix_of(
            data,
        ) {
        Some(
            choose|s: Seq<u8>, c: Seq<u8>|
                s.len() <= u32::MAX && c.len() <= u32::MAX && #[trigger] send_data(
                    s,
                    c,
                ).is_prefix_of(data),
        )
    } else {
        None
    }
}

/// The error for instruction data that does not read as a send.
pub open spec fn instruction_error(data: Seq<u8>) -> InstructionError {
    if data.len() < 8 {
        InstructionError::InstructionMissing
    } else if data.subrange(0, 8) != send_discriminator() {
        InstructionError::InstructionFallbackNotFound
    } else {
        InstructionError::InstructionDidNotDeserialize
    }
}

/// Reads the arguments of a send, the message seed and the ciphertext, from
/// instruction data; bytes after them are ignored.
pub fn decode_send_direct_message(data: &[u8]) -> (r: Result<(Vec<u8>, Vec<u8>), InstructionError>)
    ensures
        match r {
            Ok((seed, ciphertext)) => seed@.len() <= u32::MAX && ciphertext@.len() <= u32::MAX
                && send_data(seed@, ciphertext@).is_prefix_of(data@) && send_args(data@) == Some(
                (seed@, ciphertext@),
            ),
            Err(e) => e == instruction_error(data@) && send_args(data@) is None && forall|seed: Seq<u8>, ciphertext: Seq<u8>|
                seed.len() <= u32::MAX && ciphertext.len() <= u32::MAX ==> !#[trigger] send_data(
                    seed,
                    ciphertext,
                ).is_prefix_of(data@),
        },
{
    let disc = discriminator("global:send_direct_message".as_bytes());
    let checked = check_header(data, &disc);
    if let Err(e) = checked {
        assert forall|seed: Seq<u8>, ciphertext: Seq<u8>|
            seed.len() <= u32::MAX && ciphertext.len() <= u32::MAX implies !#[trigger] send_data(
            seed,
            ciphertext,
        ).is_prefix_of(data@) by {
            if send_data(seed, ciphertext).is_prefix_of(data@) {
                lemma_send_layout(seed, ciphertext, data@);
            }
        }
        return match e {
            crate::account::AccountError::DiscriminatorNotFound => Err(
                InstructionError::InstructionMissing,
            ),
            crate::account::AccountError::DiscriminatorMismatch => Err(
                InstructionError::InstructionFallbackNotFound,
            ),
            crate::account::AccountError::DidNotDeserialize => Err(
                InstructionError::InstructionDidNotDeserialize,
            ),
        };
    }
    let (seed, next) = match read_bytes_field(data, 8) {
        Some(f) => f,
        None => {
            assert forall|seed: Seq<u8>, ciphertext: Seq<u8>|
                seed.len() <= u32::MAX && ciphertext.len() <= u32::MAX implies !#[trigger] send_data(
                seed,
                ciphertext,
            ).is_prefix_of(data@) by {
                if send_data(seed, ciphertext).is_prefix_of(data@) {
                    lemma_send_layout(seed, ciphertext, data@);
                }
            }
            return Err(InstructionError::InstructionDidNotDeserialize);
        },
    };
    let (ciphertext, end) = match read_bytes_field(data, next) {
        Some(f) => f,
        None => {
            assert forall|s: Seq<u8>, c: Seq<u8>|
                s.len() <= u32::MAX && c.len() <= u32::MAX implies !#[trigger] send_data(
                s,
                c,
            ).is_prefix_of(data@) by {
                if send_data(s, c).is_prefix_of(data@) {
                    lemma_send_layout(s, c, data@);
                    lemma_field_unique(data@, 8, s, seed@);
                }
            }
            return Err(InstructionError::InstructionDidNotDeserialize);
        },
    };
    proof {
        assert(send_data(seed@, ciphertext@) =~= data@.subrange(0, end as int));
        lemma_send_args(seed@, ciphertext@, data@);
    }
    Ok((seed, ciphertext))
}

/// The data of a send determines its arguments: reading back the data that
/// `send_instruction_data` wrote gives its seed and ciphertext.
pub proof fn lemma_send_data_unique(s1: Seq<u8>, c1: Seq<u8>, s2: Seq<u8>, c2: Seq<u8>, data: Seq<u8>)
    requires
        s1.len() <= u32::MAX,
        c1.len() <= u32::MAX,
        s2.len() <= u32::MAX,
        c2.len() <= u32::MAX,
        send_data(s1, c1).is_prefix_of(data),
        send_data(s2, c2).is_prefix_of(data),
    ensures
        s1 == s2,
        c1 == c2,
{
    lemma_send_layout(s1, c1, data);
    lemma_send_layout(s2, c2, data);
    lemma_field_unique(data, 8, s1, s2);
    lemma_field_unique(data, 12 + s1.len() as int, c1, c2);
}

/// Data that begins with the encoding of a send's arguments reads as those
/// arguments.
pub proof fn lemma_send_args(seed: Seq<u8>, ciphertext: Seq<u8>, data: Seq<u8>)
    requires
        seed.len() <= u32::MAX,
        ciphertext.len() <= u32::MAX,
        send_data(seed, ciphertext).is_prefix_of(data),
    ensures
        send_args(data) == Some((seed, ciphertext)),
{
    let (s, c) = send_args(data)->Some_0;
    lemma_send_data_unique(s, c, seed, ciphertext, data);
}

} // verus!
