//! Public identifiers: 32 raw bytes, totally ordered byte by byte.
use vstd::prelude::*;

verus! {

/// Width of a public identifier in bytes.
pub const PUBKEY_BYTES: usize = 32;

/// A public identifier of the ledger: an account address or a signing
/// public key.
#[derive(Clone, Copy, Debug, PartialEq, Eq, Hash)]
pub struct Pubkey {
    pub bytes: [u8; 32],
}

/// `a` comes strictly before `b` in unsigned byte-lexicographic order.
pub open spec fn key_lt(a: Pubkey, b: Pubkey) -> bool {
    exists|i: int|
        0 <= i < 32 && #[trigger] a.bytes[i] < b.bytes[i] && forall|j: int|
            0 <= j < i ==> a.bytes[j] == b.bytes[j]
}

/// The position of the first byte in which two distinct keys differ.
proof fn first_difference(a: Pubkey, b: Pubkey, k: int) -> (i: int)
    requires
        0 <= k <= 32,
        forall|j: int| 0 <= j < k ==> a.bytes[j] == b.bytes[j],
        exists|j: int| k <= j < 32 && a.bytes[j] != b.bytes[j],
    ensures
        k <= i < 32,
        a.bytes[i] != b.bytes[i],
        forall|j: int| 0 <= j < i ==> a.bytes[j] == b.bytes[j],
    decreases 32 - k,
{
    if a.bytes[k] != b.bytes[k] {
        k
    } else {
        first_difference(a, b, k + 1)
    }
}

/// Of two distinct keys exactly one comes first; no key comes before itself.
pub proof fn lemma_key_order_total(a: Pubkey, b: Pubkey)
    ensures
        !key_lt(a, a),
        a != b ==> (key_lt(a, b) <==> !key_lt(b, a)),
        a == b <==> (!key_lt(a, b) && !key_lt(b, a)),
{
    if a != b {
        assert(exists|j: int| 0 <= j < 32 && a.bytes[j] != b.bytes[j]) by {
            if forall|j: int| 0 <= j < 32 ==> a.bytes[j] == b.bytes[j] {
                assert(a.bytes =~= b.bytes);
            }
        }
        let i = first_difference(a, b, 0);
        if a.bytes[i] < b.bytes[i] {
            assert(key_lt(a, b));
        } else {
            assert(key_lt(b, a));
        }
        assert(!(key_lt(a, b) && key_lt(b, a))) by {
            if key_lt(a, b) && key_lt(b, a) {
                let p = choose|p: int|
                    0 <= p < 32 && #[trigger] a.bytes[p] < b.bytes[p] && forall|j: int|
                        0 <= j < p ==> a.bytes[j] == b.bytes[j];
                let q = choose|q: int|
                    0 <= q < 32 && #[trigger] b.bytes[q] < a.bytes[q] && forall|j: int|
                        0 <= j < q ==> b.bytes[j] == a.bytes[j];
                if p < q {
                    assert(b.bytes[p] == a.bytes[p]);
                } else if q < p {
                    assert(a.bytes[q] == b.bytes[q]);
                }
            }
        }
    }
}

impl Pubkey {
    /// The key whose raw encoding is `bytes`.
    pub fn new_from_array(bytes: [u8; 32]) -> (r: Pubkey)
        ensures
            r.bytes == bytes,
    {
        Pubkey { bytes }
    }

    /// The raw encoding of the key.
    pub fn to_bytes(&self) -> (r: [u8; 32])
        ensures
            r == self.bytes,
    {
        self.bytes
    }

    /// Whether the two keys are the same identifier.
    pub fn same_as(&self, other: &Pubkey) -> (r: bool)
        ensures
            r == (*self == *other),
    {
        let mut i: usize = 0;
        while i < PUBKEY_BYTES
            invariant
                i <= 32,
                forall|j: int| 0 <= j < i ==> self.bytes[j] == other.bytes[j],
            decreases 32 - i,
        {
            if self.bytes[i] != other.bytes[i] {
                return false;
            }
            i = i + 1;
        }
        assert(self.bytes =~= other.bytes);
        true
    }

    /// Whether this key comes strictly before `other` in byte-lexicographic
    /// order.
    pub fn precedes(&self, other: &Pubkey) -> (r: bool)
        ensures
            r == key_lt(*self, *other),
    {
        let mut i: usize = 0;
        while i < PUBKEY_BYTES
            invariant
                i <= 32,
                forall|j: int| 0 <= j < i ==> self.bytes[j] == other.bytes[j],
            decreases 32 - i,
        {
            let x = self.bytes[i];
            let y = other.bytes[i];
            if x != y {
                return x < y;
            }
            i = i + 1;
        }
        false
    }
}

} // verus!
