//! Session keys between two identities. Each side runs the key exchange in
//! one of two complementary roles, chosen from the two public keys alone, so
//! that what one side transmits with the other receives with.
use crate::pubkey::{key_lt, lemma_key_order_total, Pubkey};
use vstd::prelude::*;

verus! {

/// Width of a session key in bytes.
pub const SESSION_KEY_BYTES: usize = 32;

/// The two complementary sides of the key exchange.
#[derive(Clone, Copy, Debug, PartialEq, Eq)]
pub enum Role {
    Client,
    Server,
}

/// The role that the holder of `mine` takes towards the holder of `theirs`:
/// the lesser key in byte order serves, the other is the client.
pub open spec fn role_of(mine: Pubkey, theirs: Pubkey) -> Role {
    if key_lt(mine, theirs) {
        Role::Server
    } else {
        Role::Client
    }
}

/// The role that the holder of `mine` takes towards the holder of `theirs`.
pub fn role(mine: &Pubkey, theirs: &Pubkey) -> (r: Role)
    ensures
        r == role_of(*mine, *theirs),
{
    if mine.precedes(theirs) {
        Role::Server
    } else {
        Role::Client
    }
}

/// Two parties with different public keys never take the same role, so
/// their exchanges are complementary without a message between them.
pub proof fn lemma_roles_complementary(a: Pubkey, b: Pubkey)
    requires
        a != b,
    ensures
        role_of(a, b) != role_of(b, a),
        role_of(a, b) == Role::Server <==> role_of(b, a) == Role::Client,
{
    lemma_key_order_total(a, b);
}

/// A symmetric session key.
#[derive(Clone, Copy, Debug, PartialEq, Eq)]
pub struct Key {
    bytes: [u8; 32],
}

impl Key {
    /// The key with the given bytes.
    pub fn new(bytes: [u8; 32]) -> (r: Key)
        ensures
            r.spec_bytes() == bytes,
    {
        Key { bytes }
    }

    /// The bytes of the key.
    pub closed spec fn spec_bytes(self) -> [u8; 32] {
        self.bytes
    }

    /// The bytes of the key.
    pub fn to_bytes(&self) -> (r: [u8; 32])
        ensures
            r == self.spec_bytes(),
    {
        self.bytes
    }
}

/// The two keys of one side of a session: one to read what the peer sent,
/// one to seal what it sends.
#[derive(Clone, Copy, Debug, PartialEq, Eq)]
pub struct SharedKey {
    pub receive_key: Key,
    pub transmit_key: Key,
}

} // verus!
