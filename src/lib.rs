//! Encrypted direct messages between holders of ed25519 identities, kept in
//! mailbox accounts of a ledger as backward-linked message records.

pub mod pubkey;
pub mod address;
pub mod program;
pub mod ledger;
pub mod account;
pub mod instruction;
pub mod session;
pub mod channel;
