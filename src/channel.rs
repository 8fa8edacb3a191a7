//! Sealed text under a session key: the ciphertext is a fixed-size
//! authentication tag followed by the encrypted bytes. These functions fix
//! the sizes and turn the outcome of opening into text or an error.
use vstd::prelude::*;
use vstd::utf8::{decode_utf8, valid_utf8};

verus! {

/// Width of the authentication tag in front of each ciphertext.
pub const TAG_BYTES: usize = 16;

/// Longest plaintext, in bytes, that may be sealed.
pub const MAX_PLAINTEXT_BYTES: usize = 255;

/// Why text could not be sealed or opened.
#[derive(Clone, Copy, Debug, PartialEq, Eq)]
pub enum ChannelError {
    /// The plaintext is longer than `MAX_PLAINTEXT_BYTES`.
    PayloadTooLarge,
    /// The ciphertext is cut short or its tag does not verify under the key.
    AuthenticationFailed,
    /// The opened bytes are not valid UTF-8.
    InvalidUtf8,
}

/// Relies on `String::from_utf8`: the bytes as a string exactly when they
/// are valid UTF-8.
#[verifier::external_body]
fn string_from_utf8(bytes: Vec<u8>) -> (r: Option<String>)
    ensures
        match r {
            Some(s) => valid_utf8(bytes@) && s@ == decode_utf8(bytes@),
            None => !valid_utf8(bytes@),
        },
{
    String::from_utf8(bytes).ok()
}

/// The size of the ciphertext that seals `plaintext`: the tag and one byte
/// per plaintext byte.
pub fn sealed_len(plaintext: &str) -> (r: Result<usize, ChannelError>)
    ensures
        plaintext.len() <= MAX_PLAINTEXT_BYTES ==> r == Ok::<usize, ChannelError>(
            (TAG_BYTES + plaintext.len()) as usize,
        ),
        plaintext.len() > MAX_PLAINTEXT_BYTES ==> r == Err::<usize, ChannelError>(
            ChannelError::PayloadTooLarge,
        ),
{
    let n = plaintext.len();
    if n > MAX_PLAINTEXT_BYTES {
        Err(ChannelError::PayloadTooLarge)
    } else {
        Ok(TAG_BYTES + n)
    }
}

/// The size of the plaintext inside a ciphertext of `ciphertext_len` bytes;
/// one shorter than the tag cannot be authentic.
pub fn opened_len(ciphertext_len: usize) -> (r: Result<usize, ChannelError>)
    ensures
        ciphertext_len >= TAG_BYTES ==> r == Ok::<usize, ChannelError>(
            (ciphertext_len - TAG_BYTES) as usize,
        ),
        ciphertext_len < TAG_BYTES ==> r == Err::<usize, ChannelError>(
            ChannelError::AuthenticationFailed,
        ),
{
    if ciphertext_len < TAG_BYTES {
        Err(ChannelError::AuthenticationFailed)
    } else {
        Ok(ciphertext_len - TAG_BYTES)
    }
}

/// The text that opening yielded: `status` is the opening's outcome, zero
/// when the tag verified, and `opened` the bytes it wrote. No text is given
/// out from a ciphertext whose tag failed.
pub fn opened_text(status: i32, opened: Vec<u8>) -> (r: Result<String, ChannelError>)
    ensures
        status != 0 ==> r == Err::<String, ChannelError>(ChannelError::AuthenticationFailed),
        status == 0 && !valid_utf8(opened@) ==> r == Err::<String, ChannelError>(
            ChannelError::InvalidUtf8,
        ),
        status == 0 && valid_utf8(opened@) ==> r is Ok && r->Ok_0@ == decode_utf8(opened@),
{
    if status != 0 {
        return Err(ChannelError::AuthenticationFailed);
    }
    match string_from_utf8(opened) {
        Some(s) => Ok(s),
        None => Err(ChannelError::InvalidUtf8),
    }
}

} // verus!
