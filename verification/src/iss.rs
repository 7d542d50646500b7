//! The one-time signatures that a payload is signed with, as an interface, and the
//! weight of a hash.
//!
//! A key of security `s` is `s * KEY_LENGTH` trits, made from a subseed. Signing a hash
//! turns the key into a signature; from the signature and the hash a reader gets the
//! digest of the key back, and from the digest the address. What these compute is fixed
//! by the implementation. Each works with a sponge that has just been reset, and leaves
//! it in a state of which nothing is said.

use vstd::prelude::*;
use crate::curl::Curl;
use crate::trits::Trit;
use crate::trits::HASH_LENGTH;

verus! {

/// Trits of a key, and of a signature, per unit of security.
pub const KEY_LENGTH: usize = 19683;

/// Trits of a digest per unit of security.
pub const DIGEST_LENGTH: usize = 243;

/// Trits of an address.
pub const ADDRESS_LENGTH: usize = 243;

/// Trits of the hash that one unit of security covers.
pub const CHECKSUM_LENGTH: usize = 81;

/// One-time signatures over a sponge.
pub trait Iss {
    /// The subseed of `seed` at `index`.
    open spec fn subseed_of<C: Curl<Trit>>(seed: Seq<Trit>, index: int) -> Seq<Trit> {
        arbitrary()
    }

    /// The key of `security` units that `subseed` expands to.
    open spec fn key_of<C: Curl<Trit>>(subseed: Seq<Trit>, security: nat) -> Seq<Trit> {
        arbitrary()
    }

    /// The signature of `hash` with `key`.
    open spec fn signed<C: Curl<Trit>>(hash: Seq<Trit>, key: Seq<Trit>) -> Seq<Trit> {
        arbitrary()
    }

    /// What `signature` turns into when the digest is taken from it and `hash`.
    open spec fn digest_of<C: Curl<Trit>>(hash: Seq<Trit>, signature: Seq<Trit>) -> Seq<
        Trit,
    > {
        arbitrary()
    }

    /// What `digest` turns into when it is hashed to an address.
    open spec fn address_of<C: Curl<Trit>>(digest: Seq<Trit>) -> Seq<Trit> {
        arbitrary()
    }

    /// Writes the subseed of `seed` at `index` over `out`.
    fn subseed<C: Curl<Trit>>(seed: &[Trit], index: isize, out: &mut [Trit], curl: &mut C)
        requires
            seed@.len() == HASH_LENGTH,
            old(out)@.len() == HASH_LENGTH,
            *old(curl) == C::blank(),
        ensures
            final(out)@ == Self::subseed_of::<C>(seed@, index as int),
            final(out)@.len() == old(out)@.len(),
    ;

    /// Expands the subseed at the start of `key_space` to a key that fills `key_space`.
    fn key<C: Curl<Trit>>(key_space: &mut [Trit], security: usize, curl: &mut C)
        requires
            1 <= security <= 3,
            old(key_space)@.len() == security * KEY_LENGTH,
            *old(curl) == C::blank(),
        ensures
            final(key_space)@ == Self::key_of::<C>(
                old(key_space)@.subrange(0, HASH_LENGTH as int),
                security as nat,
            ),
            final(key_space)@.len() == old(key_space)@.len(),
    ;

    /// Turns `key` into the signature of `hash`.
    fn signature<C: Curl<Trit>>(hash: &[Trit], key: &mut [Trit], curl: &mut C)
        requires
            hash@.len() == HASH_LENGTH,
            old(key)@.len() == KEY_LENGTH || old(key)@.len() == 2 * KEY_LENGTH || old(key)@.len()
                == 3 * KEY_LENGTH,
            *old(curl) == C::blank(),
        ensures
            final(key)@ == Self::signed::<C>(hash@, old(key)@),
            final(key)@.len() == old(key)@.len(),
    ;

    /// Turns `signature` into the digest of the key that signed `hash`: the digest is
    /// at its start, `DIGEST_LENGTH` trits per unit of security.
    fn digest_bundle_signature<C: Curl<Trit>>(
        hash: &[Trit],
        signature: &mut [Trit],
        curl: &mut C,
    )
        requires
            hash@.len() == HASH_LENGTH,
            old(signature)@.len() == KEY_LENGTH || old(signature)@.len() == 2 * KEY_LENGTH
                || old(signature)@.len() == 3 * KEY_LENGTH,
            *old(curl) == C::blank(),
        ensures
            final(signature)@ == Self::digest_of::<C>(hash@, old(signature)@),
            final(signature)@.len() == old(signature)@.len(),
    ;

    /// Hashes `digest` to an address: the address is at its start, `ADDRESS_LENGTH`
    /// trits.
    fn address<C: Curl<Trit>>(digest: &mut [Trit], curl: &mut C)
        requires
            old(digest)@.len() == DIGEST_LENGTH || old(digest)@.len() == 2 * DIGEST_LENGTH
                || old(digest)@.len() == 3 * DIGEST_LENGTH,
            *old(curl) == C::blank(),
        ensures
            final(digest)@ == Self::address_of::<C>(old(digest)@),
            final(digest)@.len() == old(digest)@.len(),
    ;
}

/// The sum of the first `n` trits of `s`.
pub open spec fn trit_total(s: Seq<Trit>, n: nat) -> int
    decreases n,
{
    if n == 0 {
        0
    } else {
        trit_total(s, (n - 1) as nat) + s[n - 1]
    }
}

/// The weight of `hash`: the largest count of units, up to 3, whose trits at the start
/// of `hash` sum to zero, and 0 where there is none.
pub open spec fn checksum_security_of(hash: Seq<Trit>) -> nat {
    if trit_total(hash, 3 * CHECKSUM_LENGTH as nat) == 0 {
        3
    } else if trit_total(hash, 2 * CHECKSUM_LENGTH as nat) == 0 {
        2
    } else if trit_total(hash, CHECKSUM_LENGTH as nat) == 0 {
        1
    } else {
        0
    }
}

/// The weight of `hash`.
pub fn checksum_security(hash: &[Trit]) -> (security: usize)
    requires
        hash@.len() >= HASH_LENGTH,
    ensures
        security == checksum_security_of(hash@),
        security <= 3,
{
    let mut total: i32 = 0;
    let mut first: i32 = 0;
    let mut second: i32 = 0;
    let mut i: usize = 0;
    while i < HASH_LENGTH
        invariant
            i <= HASH_LENGTH,
            hash@.len() >= HASH_LENGTH,
            total == trit_total(hash@, i as nat),
            -128 * i <= total <= 127 * i,
            i >= CHECKSUM_LENGTH ==> first == trit_total(hash@, CHECKSUM_LENGTH as nat),
            i >= 2 * CHECKSUM_LENGTH ==> second == trit_total(hash@, 2 * CHECKSUM_LENGTH as nat),
        decreases HASH_LENGTH - i,
    {
        total = total + hash[i] as i32;
        i += 1;
        if i == CHECKSUM_LENGTH {
            first = total;
        }
        if i == 2 * CHECKSUM_LENGTH {
            second = total;
        }
    }
    if total == 0 {
        3
    } else if second == 0 {
        2
    } else if first == 0 {
        1
    } else {
        0
    }
}

} // verus!
