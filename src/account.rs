//! The byte layout of the program's accounts: an eight-byte discriminator
//! taken from the SHA-256 digest of the account kind's name, then the fields
//! in order. An optional key is a tag byte (0 or 1) and, after 1, the key; a
//! byte string is its length as four little-endian bytes, then the bytes.
use crate::program::{Mailbox, Message, MessageView};
use crate::pubkey::Pubkey;
use vstd::prelude::*;
use vstd::string::StringSliceAdditionalSpecFns;

verus! {

/// The SHA-256 digest of `data`.
pub uninterp spec fn sha256(data: Seq<u8>) -> [u8; 32];

/// Relies on solana_program::hash::hash: the SHA-256 digest of its input.
#[verifier::external_body]
fn hash(data: &[u8]) -> (r: [u8; 32])
    ensures
        r == sha256(data@),
{
    solana_program::hash::hash(data).to_bytes()
}

/// Why bytes do not read as an account of the expected kind.
#[derive(Clone, Copy, Debug, PartialEq, Eq)]
pub enum AccountError {
    /// Fewer than eight bytes: there is no discriminator.
    DiscriminatorNotFound,
    /// The first eight bytes are another kind's discriminator.
    DiscriminatorMismatch,
    /// The fields after the discriminator are malformed or cut short.
    DidNotDeserialize,
}

/// The first eight bytes of the digest of `preimage`.
pub open spec fn discriminator_of(preimage: Seq<u8>) -> Seq<u8> {
    sha256(preimage)@.subrange(0, 8)
}

/// The discriminator of mailbox accounts.
pub open spec fn mailbox_discriminator() -> Seq<u8> {
    discriminator_of("account:Mailbox".spec_bytes())
}

/// The discriminator of message accounts.
pub open spec fn message_discriminator() -> Seq<u8> {
    discriminator_of("account:Message".spec_bytes())
}

/// An optional key: tag 0, or tag 1 and the key's bytes.
pub open spec fn key_option_bytes(k: Option<Pubkey>) -> Seq<u8> {
    match k {
        None => seq![0u8],
        Some(k) => seq![1u8] + k.bytes@,
    }
}

/// `n` as four little-endian bytes.
pub open spec fn u32_le(n: nat) -> Seq<u8> {
    seq![
        (n % 256) as u8,
        (n / 256 % 256) as u8,
        (n / 65536 % 256) as u8,
        (n / 16777216 % 256) as u8,
    ]
}

/// The stored form of a mailbox.
pub open spec fn mailbox_bytes(m: Mailbox) -> Seq<u8> {
    mailbox_discriminator() + key_option_bytes(m.inbox)
}

/// The stored form of a message record.
pub open spec fn message_bytes(m: MessageView) -> Seq<u8> {
    message_discriminator() + m.from.bytes@ + key_option_bytes(m.inbox) + u32_le(
        m.ciphertext.len(),
    ) + m.ciphertext
}

/// The error for `data` whose header does not carry `disc`.
pub open spec fn header_error(data: Seq<u8>, disc: Seq<u8>) -> AccountError {
    if data.len() < 8 {
        AccountError::DiscriminatorNotFound
    } else if data.subrange(0, 8) != disc {
        AccountError::DiscriminatorMismatch
    } else {
        AccountError::DidNotDeserialize
    }
}

/// The first eight bytes of the digest of `preimage`.
pub(crate) fn discriminator(preimage: &[u8]) -> (r: Vec<u8>)
    ensures
        r@ == discriminator_of(preimage@),
        r@.len() == 8,
{
    let digest = hash(preimage);
    let mut r: Vec<u8> = Vec::new();
    let mut i: usize = 0;
    while i < 8
        invariant
            i <= 8,
            digest == sha256(preimage@),
            r@ == digest@.subrange(0, i as int),
        decreases 8 - i,
    {
        r.push(digest[i]);
        i = i + 1;
    }
    r
}

/// The discriminator of mailbox accounts.
pub fn mailbox_account_discriminator() -> (r: Vec<u8>)
    ensures
        r@ == mailbox_discriminator(),
{
    discriminator("account:Mailbox".as_bytes())
}

/// The discriminator of message accounts.
pub fn message_account_discriminator() -> (r: Vec<u8>)
    ensures
        r@ == message_discriminator(),
{
    discriminator("account:Message".as_bytes())
}

/// Appends all of `src` to `out`.
pub(crate) fn put_bytes(out: &mut Vec<u8>, src: &[u8])
    ensures
        final(out)@ == old(out)@ + src@,
{
    let ghost start = out@;
    let mut i: usize = 0;
    while i < src.len()
        invariant
            i <= src@.len(),
            out@ == start + src@.subrange(0, i as int),
        decreases src@.len() - i,
    {
        out.push(src[i]);
        i = i + 1;
    }
    assert(src@.subrange(0, src@.len() as int) =~= src@);
}

/// Appends an optional key.
fn put_key_option(out: &mut Vec<u8>, k: Option<Pubkey>)
    ensures
        final(out)@ == old(out)@ + key_option_bytes(k),
{
    match k {
        None => {
            out.push(0u8);
            assert(final(out)@ =~= old(out)@ + key_option_bytes(k));
        },
        Some(key) => {
            let ghost start = out@;
            out.push(1u8);
            put_bytes(out, key.bytes.as_slice());
            assert(out@ =~= start + key_option_bytes(k));
        },
    }
}

/// Appends `n` as four little-endian bytes.
pub(crate) fn put_u32(out: &mut Vec<u8>, n: u32)
    ensures
        final(out)@ == old(out)@ + u32_le(n as nat),
{
    let ghost start = out@;
    out.push((n % 256) as u8);
    out.push((n / 256 % 256) as u8);
    out.push((n / 65536 % 256) as u8);
    out.push((n / 16777216 % 256) as u8);
    assert(out@ =~= start + u32_le(n as nat));
}

/// The stored form of a mailbox.
pub fn encode_mailbox(m: &Mailbox) -> (r: Vec<u8>)
    ensures
        r@ == mailbox_bytes(*m),
{
    let mut out = mailbox_account_discriminator();
    put_key_option(&mut out, m.inbox);
    out
}

/// The stored form of a message record.
pub fn encode_message(m: &Message) -> (r: Vec<u8>)
    requires
        m.ciphertext@.len() <= u32::MAX,
    ensures
        r@ == message_bytes(m@),
{
    let mut out = message_account_discriminator();
    put_bytes(&mut out, m.from.bytes.as_slice());
    put_key_option(&mut out, m.inbox);
    put_u32(&mut out, m.ciphertext.len() as u32);
    put_bytes(&mut out, m.ciphertext.as_slice());
    out
}

/// The number that four little-endian bytes stand for.
pub open spec fn u32_from_le(b: Seq<u8>) -> nat {
    (b[0] + 256 * b[1] + 65536 * b[2] + 16777216 * b[3]) as nat
}

pub(crate) proof fn lemma_u32_le(n: nat)
    requires
        n <= u32::MAX,
    ensures
        u32_from_le(u32_le(n)) == n,
{
    let b = u32_le(n);
    assert(n == n % 256 + 256 * (n / 256 % 256) + 65536 * (n / 65536 % 256) + 16777216 * (n
        / 16777216 % 256)) by (nonlinear_arith)
        requires
            n <= u32::MAX,
    ;
}

pub(crate) proof fn lemma_u32_from_le(b: Seq<u8>)
    requires
        b.len() == 4,
    ensures
        u32_from_le(b) <= u32::MAX,
        u32_le(u32_from_le(b)) == b,
{
    let (b0, b1, b2, b3) = (b[0] as int, b[1] as int, b[2] as int, b[3] as int);
    let n = b0 + 256 * b1 + 65536 * b2 + 16777216 * b3;
    assert(n % 256 == b0 && n / 256 % 256 == b1 && n / 65536 % 256 == b2 && n / 16777216 % 256
        == b3) by (nonlinear_arith)
        requires
            0 <= b0 < 256,
            0 <= b1 < 256,
            0 <= b2 < 256,
            0 <= b3 < 256,
            n == b0 + 256 * b1 + 65536 * b2 + 16777216 * b3,
    ;
    assert(u32_le(u32_from_le(b)) =~= b);
}

/// Checks that `data` starts with the discriminator `disc`.
pub(crate) fn check_header(data: &[u8], disc: &Vec<u8>) -> (r: Result<(), AccountError>)
    requires
        disc@.len() == 8,
    ensures
        match r {
            Ok(()) => disc@.is_prefix_of(data@),
            Err(e) => e == header_error(data@, disc@) && !disc@.is_prefix_of(data@),
        },
{
    if data.len() < 8 {
        return Err(AccountError::DiscriminatorNotFound);
    }
    let mut i: usize = 0;
    while i < 8
        invariant
            i <= 8 <= data@.len(),
            disc@.len() == 8,
            forall|j: int| 0 <= j < i ==> data@[j] == disc@[j],
        decreases 8 - i,
    {
        if data[i] != disc[i] {
            assert(data@.subrange(0, 8)[i as int] != disc@[i as int]);
            return Err(AccountError::DiscriminatorMismatch);
        }
        i = i + 1;
    }
    assert(data@.subrange(0, 8) =~= disc@);
    Ok(())
}

/// The key stored at `at`.
fn read_key(data: &[u8], at: usize) -> (r: Pubkey)
    requires
        at + 32 <= data@.len(),
    ensures
        r.bytes@ == data@.subrange(at as int, at + 32),
{
    let len = data.len();
    let mut bytes: [u8; 32] = [0u8; 32];
    let mut i: usize = 0;
    while i < 32
        invariant
            i <= 32,
            len == data@.len(),
            at + 32 <= data@.len(),
            forall|j: int| 0 <= j < i ==> bytes[j] == data@[at + j],
        decreases 32 - i,
    {
        bytes[i] = data[at + i];
        i = i + 1;
    }
    let r = Pubkey { bytes };
    assert(r.bytes@ =~= data@.subrange(at as int, at + 32));
    r
}

/// The number stored at `at` as four little-endian bytes.
pub(crate) fn read_u32(data: &[u8], at: usize) -> (r: u32)
    requires
        at + 4 <= data@.len(),
    ensures
        r == u32_from_le(data@.subrange(at as int, at + 4)),
{
    let ghost b = data@.subrange(at as int, at + 4);
    assert(b[0] == data@[at as int] && b[1] == data@[at + 1] && b[2] == data@[at + 2] && b[3]
        == data@[at + 3]);
    data[at] as u32 + data[at + 1] as u32 * 256 + data[at + 2] as u32 * 65536 + data[at + 3] as u32
        * 16777216
}

/// Where a mailbox's stored form begins `data`: the discriminator, then the
/// tag at position 8, then the key after tag 1.
proof fn lemma_mailbox_layout(m: Mailbox, data: Seq<u8>)
    requires
        mailbox_bytes(m).is_prefix_of(data),
    ensures
        mailbox_discriminator().is_prefix_of(data),
        data.len() >= 9,
        m.inbox is None <==> data[8] == 0,
        m.inbox is Some <==> data[8] == 1,
        m.inbox matches Some(k) ==> data.len() >= 41 && data.subrange(9, 41) == k.bytes@,
{
    let e = mailbox_bytes(m);
    let d = mailbox_discriminator();
    assert(d.len() == 8);
    assert(data.subrange(0, 8) =~= e.subrange(0, 8));
    assert(e.subrange(0, 8) =~= d);
    assert(data[8] == e[8]);
    if let Some(k) = m.inbox {
        assert(data.subrange(9, 41) =~= e.subrange(9, 41));
        assert(e.subrange(9, 41) =~= k.bytes@);
    }
}

/// Reads a mailbox from its stored form; bytes after it are ignored.
pub fn decode_mailbox(data: &[u8]) -> (r: Result<Mailbox, AccountError>)
    ensures
        match r {
            Ok(m) => mailbox_bytes(m).is_prefix_of(data@),
            Err(e) => e == header_error(data@, mailbox_discriminator()) && forall|m: Mailbox|
                !#[trigger] mailbox_bytes(m).is_prefix_of(data@),
        },
{
    let disc = mailbox_account_discriminator();
    let checked = check_header(data, &disc);
    if let Err(e) = checked {
        assert forall|m: Mailbox| !#[trigger] mailbox_bytes(m).is_prefix_of(data@) by {
            if mailbox_bytes(m).is_prefix_of(data@) {
                lemma_mailbox_layout(m, data@);
            }
        }
        return Err(e);
    }
    assert(data@.len() >= 8 && data@.subrange(0, 8) == disc@);
    if data.len() >= 9 {
        let tag = data[8];
        if tag == 0 {
            let m = Mailbox { inbox: None };
            assert(mailbox_bytes(m) =~= data@.subrange(0, 9));
            return Ok(m);
        }
        if tag == 1 && data.len() >= 41 {
            let k = read_key(data, 9);
            let m = Mailbox { inbox: Some(k) };
            assert(mailbox_bytes(m) =~= data@.subrange(0, 41));
            return Ok(m);
        }
    }
    assert forall|m: Mailbox| !#[trigger] mailbox_bytes(m).is_prefix_of(data@) by {
        if mailbox_bytes(m).is_prefix_of(data@) {
            lemma_mailbox_layout(m, data@);
        }
    }
    Err(AccountError::DidNotDeserialize)
}

/// Where a message record's stored form begins `data`: the discriminator,
/// the sender at 8, the tag at 40, the key after tag 1, then the length at
/// `p` (41 or 73) and the ciphertext after it.
proof fn lemma_message_layout(m: MessageView, data: Seq<u8>)
    requires
        m.ciphertext.len() <= u32::MAX,
        message_bytes(m).is_prefix_of(data),
    ensures
        message_discriminator().is_prefix_of(data),
        data.len() >= 45,
        data.subrange(8, 40) == m.from.bytes@,
        m.inbox is None <==> data[40] == 0,
        m.inbox is Some <==> data[40] == 1,
        m.inbox matches Some(k) ==> data.len() >= 77 && data.subrange(41, 73) == k.bytes@,
        ({
            let p: int = if data[40] == 0 {
                41
            } else {
                73
            };
            &&& p + 4 + m.ciphertext.len() <= data.len()
            &&& u32_from_le(data.subrange(p, p + 4)) == m.ciphertext.len()
            &&& data.subrange(p + 4, p + 4 + m.ciphertext.len()) == m.ciphertext
        }),
{
    let e = message_bytes(m);
    let d = message_discriminator();
    let o = key_option_bytes(m.inbox);
    let n = m.ciphertext.len();
    let p: int = 40 + o.len() as int;
    assert(d.len() == 8);
    assert(data.subrange(0, 8) =~= e.subrange(0, 8));
    assert(e.subrange(0, 8) =~= d);
    assert(data.subrange(8, 40) =~= e.subrange(8, 40));
    assert(e.subrange(8, 40) =~= m.from.bytes@);
    assert(data[40] == e[40]);
    if let Some(k) = m.inbox {
        assert(data.subrange(41, 73) =~= e.subrange(41, 73));
        assert(e.subrange(41, 73) =~= k.bytes@);
    }
    assert(data.subrange(p, p + 4) =~= e.subrange(p, p + 4));
    assert(e.subrange(p, p + 4) =~= u32_le(n));
    lemma_u32_le(n);
    assert(data.subrange(p + 4, p + 4 + n) =~= e.subrange(p + 4, p + 4 + n));
    assert(e.subrange(p + 4, p + 4 + n) =~= m.ciphertext);
}

/// Reads a message record from its stored form; bytes after it are
/// ignored.
pub fn decode_message(data: &[u8]) -> (r: Result<Message, AccountError>)
    ensures
        match r {
            Ok(m) => m.ciphertext@.len() <= u32::MAX && message_bytes(m@).is_prefix_of(data@),
            Err(e) => e == header_error(data@, message_discriminator()) && forall|m: MessageView|
                m.ciphertext.len() <= u32::MAX ==> !#[trigger] message_bytes(m).is_prefix_of(
                    data@,
                ),
        },
{
    let disc = message_account_discriminator();
    let checked = check_header(data, &disc);
    if let Err(e) = checked {
        assert forall|m: MessageView| m.ciphertext.len() <= u32::MAX implies !#[trigger] message_bytes(
            m,
        ).is_prefix_of(data@) by {
            if message_bytes(m).is_prefix_of(data@) {
                lemma_message_layout(m, data@);
            }
        }
        return Err(e);
    }
    assert(data@.len() >= 8 && data@.subrange(0, 8) == disc@);
    let len = data.len();
    let mut p: usize = 0;
    let mut inbox: Option<Pubkey> = None;
    if len >= 45 {
        let tag = data[40];
        if tag == 0 {
            p = 41;
        } else if tag == 1 && len >= 77 {
            p = 73;
            inbox = Some(read_key(data, 41));
        }
    }
    if p == 0 {
        assert forall|m: MessageView| m.ciphertext.len() <= u32::MAX implies !#[trigger] message_bytes(
            m,
        ).is_prefix_of(data@) by {
            if message_bytes(m).is_prefix_of(data@) {
                lemma_message_layout(m, data@);
            }
        }
        return Err(AccountError::DidNotDeserialize);
    }
    let from = read_key(data, 8);
    let n = read_u32(data, p);
    if len - (p + 4) < n as usize {
        assert forall|m: MessageView| m.ciphertext.len() <= u32::MAX implies !#[trigger] message_bytes(
            m,
        ).is_prefix_of(data@) by {
            if message_bytes(m).is_prefix_of(data@) {
                lemma_message_layout(m, data@);
            }
        }
        return Err(AccountError::DidNotDeserialize);
    }
    let start = p + 4;
    let end = start + n as usize;
    let mut ciphertext: Vec<u8> = Vec::new();
    let mut i: usize = start;
    while i < end
        invariant
            start <= i <= end <= data@.len(),
            ciphertext@ == data@.subrange(start as int, i as int),
        decreases end - i,
    {
        ciphertext.push(data[i]);
        i = i + 1;
    }
    let m = Message { from, inbox, ciphertext };
    proof {
        lemma_u32_from_le(data@.subrange(p as int, p + 4));
        assert(message_bytes(m@) =~= data@.subrange(0, end as int));
    }
    Ok(m)
}

/// A record's stored form determines the record: of two records whose
/// stored forms both begin the same bytes, with ciphertexts whose length fits
/// the length field, each is the other. With the decoder's contract this
/// makes reading back a stored record return that record.
pub proof fn lemma_message_bytes_unique(m1: MessageView, m2: MessageView, data: Seq<u8>)
    requires
        m1.ciphertext.len() <= u32::MAX,
        m2.ciphertext.len() <= u32::MAX,
        message_bytes(m1).is_prefix_of(data),
        message_bytes(m2).is_prefix_of(data),
    ensures
        m1 == m2,
{
    lemma_message_layout(m1, data);
    lemma_message_layout(m2, data);
    assert(m1.from.bytes =~= m2.from.bytes);
    if let Some(k1) = m1.inbox {
        let k2 = m2.inbox->Some_0;
        assert(k1.bytes =~= k2.bytes);
    }
}

/// A mailbox's stored form determines the mailbox.
pub proof fn lemma_mailbox_bytes_unique(m1: Mailbox, m2: Mailbox, data: Seq<u8>)
    requires
        mailbox_bytes(m1).is_prefix_of(data),
        mailbox_bytes(m2).is_prefix_of(data),
    ensures
        m1 == m2,
{
    lemma_mailbox_layout(m1, data);
    lemma_mailbox_layout(m2, data);
    if let Some(k1) = m1.inbox {
        let k2 = m2.inbox->Some_0;
        assert(k1.bytes =~= k2.bytes);
    }
}

} // verus!
