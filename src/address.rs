//! Deterministic storage addresses, derived by the ledger's program-address
//! function from seed byte strings and the program's own identifier.
use crate::pubkey::{key_lt, lemma_key_order_total, Pubkey};
use vstd::prelude::*;

verus! {

/// The ledger's program-address function: for the seed list and the owning
/// program, the derived address and its bump byte, or `None` where no bump
/// byte gives an address off the ed25519 curve or the seeds are out of bounds.
pub uninterp spec fn program_address(seeds: Seq<Seq<u8>>, program_id: Seq<u8>) -> Option<
    ([u8; 32], u8),
>;

/// The views of a list of seeds.
pub open spec fn seeds_view(seeds: Seq<Vec<u8>>) -> Seq<Seq<u8>> {
    seeds.map_values(|s: Vec<u8>| s@)
}

/// Relies on solana_program's `Pubkey::try_find_program_address`: its result
/// is a function of the seeds and the program id alone, and it is `None`
/// when, with the bump byte appended, there would be more than sixteen seeds
/// or when one seed is longer than thirty-two bytes.
#[verifier::external_body]
fn try_find_program_address(seeds: &Vec<Vec<u8>>, program_id: &Pubkey) -> (r: Option<(Pubkey, u8)>)
    ensures
        program_address(seeds_view(seeds@), program_id.bytes@) == match r {
            Some((k, bump)) => Some((k.bytes, bump)),
            None => None,
        },
        (seeds@.len() >= 16 || exists|i: int| 0 <= i < seeds@.len() && seeds@[i]@.len() > 32)
            ==> r is None,
{
    let slices: Vec<&[u8]> = seeds.iter().map(|s| s.as_slice()).collect();
    let program = solana_program::pubkey::Pubkey::new_from_array(program_id.bytes);
    solana_program::pubkey::Pubkey::try_find_program_address(&slices, &program).map(
        |(k, bump)| (Pubkey { bytes: k.to_bytes() }, bump),
    )
}

/// The identifier of the messaging program that owns the mailboxes and the
/// message records.
pub open spec fn program_key() -> Seq<u8> {
    seq![
        19u8, 242, 87, 171, 190, 37, 223, 83, 64, 209, 158, 109, 151, 204, 178, 148, 204, 18, 59,
        31, 222, 30, 249, 27, 60, 23, 250, 109, 160, 130, 16, 15,
    ]
}

/// The address that the program derives from `seeds`, if any.
pub open spec fn pda(seeds: Seq<Seq<u8>>) -> Option<Pubkey> {
    match program_address(seeds, program_key()) {
        Some((k, _bump)) => Some(Pubkey { bytes: k }),
        None => None,
    }
}

/// The seeds of a recipient's mailbox: the recipient's key alone.
pub open spec fn mailbox_seeds(owner: Pubkey) -> Seq<Seq<u8>> {
    seq![owner.bytes@]
}

/// The seeds of a message record: the one seed its sender chose.
pub open spec fn message_seeds(seed: Seq<u8>) -> Seq<Seq<u8>> {
    seq![seed]
}

/// The seeds of the conversation of an unordered pair: the two keys, the
/// lesser first.
pub open spec fn pair_seeds(a: Pubkey, b: Pubkey) -> Seq<Seq<u8>> {
    if key_lt(b, a) {
        seq![b.bytes@, a.bytes@]
    } else {
        seq![a.bytes@, b.bytes@]
    }
}

/// The identifier of the messaging program.
pub fn id() -> (r: Pubkey)
    ensures
        r.bytes@ == program_key(),
{
    let r = Pubkey {
        bytes: [
            19, 242, 87, 171, 190, 37, 223, 83, 64, 209, 158, 109, 151, 204, 178, 148, 204, 18,
            59, 31, 222, 30, 249, 27, 60, 23, 250, 109, 160, 130, 16, 15,
        ],
    };
    assert(r.bytes@ =~= program_key());
    r
}

/// Derives an address owned by the program from `seeds`.
fn derive(seeds: &Vec<Vec<u8>>) -> (r: Option<Pubkey>)
    ensures
        r == pda(seeds_view(seeds@)),
        (seeds@.len() >= 16 || exists|i: int| 0 <= i < seeds@.len() && seeds@[i]@.len() > 32)
            ==> r is None,
{
    let program = id();
    match try_find_program_address(seeds, &program) {
        Some((k, _bump)) => Some(k),
        None => None,
    }
}

/// A copy of `s` to own as a seed.
fn seed_of(s: &[u8]) -> (r: Vec<u8>)
    ensures
        r@ == s@,
{
    let mut r: Vec<u8> = Vec::new();
    let mut i: usize = 0;
    while i < s.len()
        invariant
            i <= s@.len(),
            r@ == s@.subrange(0, i as int),
        decreases s@.len() - i,
    {
        r.push(s[i]);
        i = i + 1;
    }
    assert(r@ =~= s@);
    r
}

/// The bytes of a key as a seed.
fn key_seed(k: &Pubkey) -> (r: Vec<u8>)
    ensures
        r@ == k.bytes@,
{
    seed_of(k.bytes.as_slice())
}

/// The address of the mailbox of `owner`.
pub fn mailbox_pda(owner: &Pubkey) -> (r: Option<Pubkey>)
    ensures
        r == pda(mailbox_seeds(*owner)),
{
    let mut seeds: Vec<Vec<u8>> = Vec::new();
    seeds.push(key_seed(owner));
    assert(seeds_view(seeds@) =~= mailbox_seeds(*owner));
    derive(&seeds)
}

/// The address of the message record that a sender chose `seed` for.
/// There is none for a seed longer than thirty-two bytes.
pub fn message_pda(seed: &[u8]) -> (r: Option<Pubkey>)
    ensures
        r == pda(message_seeds(seed@)),
        seed@.len() > 32 ==> r is None,
{
    let mut seeds: Vec<Vec<u8>> = Vec::new();
    seeds.push(seed_of(seed));
    assert(seeds_view(seeds@) =~= message_seeds(seed@));
    assert(seeds@[0]@ == seed@);
    derive(&seeds)
}

/// The address of the conversation between `a` and `b`, the same whichever
/// of the two is named first.
pub fn pairwise_address(a: &Pubkey, b: &Pubkey) -> (r: Option<Pubkey>)
    ensures
        r == pda(pair_seeds(*a, *b)),
{
    let mut seeds: Vec<Vec<u8>> = Vec::new();
    if b.precedes(a) {
        seeds.push(key_seed(b));
        seeds.push(key_seed(a));
    } else {
        seeds.push(key_seed(a));
        seeds.push(key_seed(b));
    }
    assert(seeds_view(seeds@) =~= pair_seeds(*a, *b));
    derive(&seeds)
}

/// The conversation address of a pair does not depend on the order in which
/// the two identifiers are given.
pub proof fn lemma_pairwise_address_symmetric(a: Pubkey, b: Pubkey)
    ensures
        pair_seeds(a, b) == pair_seeds(b, a),
        pda(pair_seeds(a, b)) == pda(pair_seeds(b, a)),
{
    lemma_key_order_total(a, b);
    if a == b {
    } else if key_lt(b, a) {
        assert(!key_lt(a, b));
    } else {
        assert(key_lt(a, b));
    }
}

/// Two different unordered pairs of identifiers hand the address function
/// different seeds, so their conversation addresses differ wherever that
/// function does not collide.
pub proof fn lemma_pair_seeds_distinct(a: Pubkey, b: Pubkey, c: Pubkey, d: Pubkey)
    requires
        !(a == c && b == d),
        !(a == d && b == c),
    ensures
        pair_seeds(a, b) != pair_seeds(c, d),
{
    if pair_seeds(a, b) == pair_seeds(c, d) {
        let s = pair_seeds(a, b);
        assert(s[0] == pair_seeds(c, d)[0]);
        assert(s[1] == pair_seeds(c, d)[1]);
        let ka = a.bytes@;
        let kb = b.bytes@;
        let kc = c.bytes@;
        let kd = d.bytes@;
        assert(ka == kc ==> a.bytes =~= c.bytes);
        assert(ka == kd ==> a.bytes =~= d.bytes);
        assert(kb == kc ==> b.bytes =~= c.bytes);
        assert(kb == kd ==> b.bytes =~= d.bytes);
    }
}

} // verus!
