//! Masked authenticated messages: how a payload is laid out, made and read.
//!
//! A payload holds, in this order and without padding:
//!
//! * the index of the signing key in its tree, encoded;
//! * `HASH_LENGTH` plus the length of the message, encoded;
//! * the next root, `HASH_LENGTH` trits, and the message, masked;
//! * the nonce, `MESSAGE_NONCE_LENGTH` trits, masked;
//! * the signature, `KEY_LENGTH` trits per unit of security, the number of sibling
//!   hashes, encoded, and the sibling hashes, masked.
//!
//! The sponge that masks has absorbed the side key, the root and the two encoded
//! numbers. What its rate holds after the masked nonce is the hash that is signed.

use vstd::prelude::*;
use vstd::slice::slice_subrange;
use crate::curl::BCTrit;
use crate::curl::Curl;
use crate::curl::HammingNonce;
use crate::errors::MamError;
use crate::iss::Iss;
use crate::iss::KEY_LENGTH;
use crate::iss::DIGEST_LENGTH;
use crate::iss::checksum_security;
use crate::iss::checksum_security_of;
use crate::mask::masked;
use crate::mask::unmasked;
use crate::mask::mask_slice;
use crate::mask::unmask_slice;
use crate::mask::lemma_masked_length;
use crate::mask::lemma_unmasked_length;
use crate::mask::lemma_unmasked_prefix;
use crate::mask::theorem_unmask_inverts_mask;
use crate::merkle::root_of;
use crate::pascal::encoded_len;
use crate::pascal::encoding;
use crate::pascal::decoding;
use crate::pascal::fits_isize;
use crate::pascal::encoded_length;
use crate::pascal::encode;
use crate::pascal::decode_checked;
use crate::pascal::theorem_round_trip;
use crate::trits::Trit;
use crate::trits::HASH_LENGTH;
use crate::trits::copy_trits;
use crate::trits::valid_trits;

verus! {

/// Trits of the nonce.
pub const MESSAGE_NONCE_LENGTH: usize = 81;

/// The length of the payload of a message of `message_length` trits signed with the
/// key at `index`, with `siblings_length` trits of sibling hashes.
pub open spec fn min_len(
    message_length: nat,
    siblings_length: nat,
    index: nat,
    security: nat,
) -> nat {
    (encoded_len(index as int) + encoded_len(HASH_LENGTH + message_length) + HASH_LENGTH
        + message_length + MESSAGE_NONCE_LENGTH + security * KEY_LENGTH + encoded_len(
        (siblings_length / (HASH_LENGTH as nat)) as int,
    ) + siblings_length) as nat
}

/// The sponge that has absorbed `side_key` and `root`.
pub open spec fn channel<C: Curl<Trit>>(side_key: Seq<Trit>, root: Seq<Trit>) -> C {
    C::blank().absorbed(side_key).absorbed(root)
}

/// The two numbers at the start of a payload.
pub open spec fn frame(index: int, message_length: int) -> Seq<Trit> {
    encoding(index) + encoding(HASH_LENGTH + message_length)
}

/// The next root and the message, masked, and the sponge after them.
pub open spec fn masked_body<C: Curl<Trit>>(
    side_key: Seq<Trit>,
    root: Seq<Trit>,
    index: int,
    next: Seq<Trit>,
    message: Seq<Trit>,
) -> (Seq<Trit>, C) {
    masked(
        channel::<C>(side_key, root).absorbed(frame(index, message.len() as int)),
        next + message,
    )
}

/// The sponge that the search for a nonce starts from: one that was reset and then
/// given the state of the masking sponge.
pub open spec fn search_start<C: Curl<Trit>>(encr: C) -> C {
    C::blank().with_state(encr.state_of())
}

/// The nonce that the search finds for the masking sponge `encr`, if it finds one.
pub open spec fn nonce_of<C: Curl<Trit>, CB: Curl<BCTrit>, H: HammingNonce>(
    encr: C,
    security: u8,
) -> Option<Seq<Trit>> {
    match H::found(security, 0, MESSAGE_NONCE_LENGTH, search_start(encr), CB::blank()) {
        None => None,
        Some(_) => Some(
            H::searched(
                security,
                0,
                MESSAGE_NONCE_LENGTH,
                search_start(encr),
                CB::blank(),
            ).rate_of().subrange(0, MESSAGE_NONCE_LENGTH as int),
        ),
    }
}

/// The signature of `hash` with the key of leaf `leaf` under `seed`.
pub open spec fn signature_of<C: Curl<Trit>, I: Iss>(
    seed: Seq<Trit>,
    leaf: int,
    security: nat,
    hash: Seq<Trit>,
) -> Seq<Trit> {
    I::signed::<C>(hash, I::key_of::<C>(I::subseed_of::<C>(seed, leaf), security))
}

/// What follows the nonce, before it is masked: the signature of `hash`, the number of
/// sibling hashes and the sibling hashes.
pub open spec fn tail_of<C: Curl<Trit>, I: Iss>(
    seed: Seq<Trit>,
    leaf: int,
    security: nat,
    hash: Seq<Trit>,
    siblings: Seq<Trit>,
) -> Seq<Trit> {
    signature_of::<C, I>(seed, leaf, security, hash) + encoding(
        (siblings.len() / (HASH_LENGTH as nat)) as int,
    ) + siblings
}

/// The payload of `message`, where a nonce is found.
pub open spec fn created<C: Curl<Trit>, CB: Curl<BCTrit>, H: HammingNonce, I: Iss>(
    seed: Seq<Trit>,
    message: Seq<Trit>,
    side_key: Seq<Trit>,
    root: Seq<Trit>,
    siblings: Seq<Trit>,
    next: Seq<Trit>,
    start: int,
    index: nat,
    security: u8,
) -> Option<Seq<Trit>> {
    let body = masked_body::<C>(side_key, root, index as int, next, message);
    match nonce_of::<C, CB, H>(body.1, security) {
        None => None,
        Some(nonce) => {
            let sealed = masked(body.1, nonce);
            let closing = masked(
                sealed.1,
                tail_of::<C, I>(seed, start + index, security as nat, sealed.1.rate_of(), siblings),
            );
            Some(frame(index as int, message.len() as int) + body.0 + sealed.0 + closing.0)
        },
    }
}

/// The identifier of a channel: what a sponge gives after `side_key` and `root`.
pub fn id<C: Curl<Trit>>(side_key: &[Trit], root: &[Trit], out: &mut [Trit], c: &mut C)
    ensures
        final(out)@ == old(c).absorbed(side_key@).absorbed(root@).squeezed_out(old(out)@.len()),
        *final(c) == C::blank(),
{
    c.absorb(side_key);
    c.absorb(root);
    c.squeeze(out);
    c.reset();
}

/// The length of the payload of a message of `message_length` trits signed with the
/// key at `index`, with `siblings_length` trits of sibling hashes.
pub fn min_length(
    message_length: usize,
    siblings_length: usize,
    index: usize,
    security: usize,
) -> (length: usize)
    requires
        index <= isize::MAX,
        HASH_LENGTH + message_length <= isize::MAX,
        min_len(message_length as nat, siblings_length as nat, index as nat, security as nat)
            <= usize::MAX,
    ensures
        length == min_len(
            message_length as nat,
            siblings_length as nat,
            index as nat,
            security as nat,
        ),
{
    encoded_length(index as isize) + encoded_length((HASH_LENGTH + message_length) as isize)
        + HASH_LENGTH + message_length + MESSAGE_NONCE_LENGTH + security * KEY_LENGTH
        + encoded_length((siblings_length / HASH_LENGTH) as isize) + siblings_length
}

/// Resets `encr_curl`, gives it `side_key` and `root`, writes the two numbers of the
/// frame to `window`, which it absorbs, and after them `next` and `message`, masked.
fn write_body<C: Curl<Trit>>(
    message: &[Trit],
    side_key: &[Trit],
    root: &[Trit],
    next: &[Trit],
    index: usize,
    window: &mut [Trit],
    encr_curl: &mut C,
)
    requires
        next@.len() == HASH_LENGTH,
        index <= isize::MAX,
        HASH_LENGTH + message@.len() <= isize::MAX,
        old(window)@.len() == encoded_len(index as int) + encoded_len(
            HASH_LENGTH + message@.len(),
        ) + HASH_LENGTH + message@.len(),
    ensures
        final(window)@ == frame(index as int, message@.len() as int) + masked_body::<C>(
            side_key@,
            root@,
            index as int,
            next@,
            message@,
        ).0,
        *final(encr_curl) == masked_body::<C>(side_key@, root@, index as int, next@, message@).1,
        final(window)@.len() == old(window)@.len(),
{
    let message_length = message.len();
    proof {
        lemma_masked_length(
            channel::<C>(side_key@, root@).absorbed(frame(index as int, message@.len() as int)),
            next@ + message@,
        );
    }
    let index_p = encoded_length(index as isize);
    let message_p = encoded_length((HASH_LENGTH + message_length) as isize);
    encr_curl.reset();
    encr_curl.absorb(side_key);
    encr_curl.absorb(root);
    let (head, body) = window.split_at_mut(index_p + message_p);
    let (first, second) = head.split_at_mut(index_p);
    encode(index as isize, first);
    encode((HASH_LENGTH + message_length) as isize, second);
    encr_curl.absorb(head);
    let (above, below) = body.split_at_mut(HASH_LENGTH);
    copy_trits(above, next);
    copy_trits(below, message);
    mask_slice(body, encr_curl);
}

/// Searches for the nonce of the masking sponge `encr_curl` and writes it, masked, to
/// `window`. Returns whether a nonce was found; `window` and `encr_curl` are as they
/// were where none was.
fn write_nonce<C: Curl<Trit>, CB: Curl<BCTrit>, H: HammingNonce>(
    security: u8,
    window: &mut [Trit],
    curl: &mut C,
    encr_curl: &mut C,
    bcurl: &mut CB,
) -> (found: bool)
    requires
        1 <= security <= 3,
        old(window)@.len() == MESSAGE_NONCE_LENGTH,
    ensures
        found == (nonce_of::<C, CB, H>(*old(encr_curl), security) is Some),
        match nonce_of::<C, CB, H>(*old(encr_curl), security) {
            Some(nonce) => {
                &&& final(window)@ == masked(*old(encr_curl), nonce).0
                &&& *final(encr_curl) == masked(*old(encr_curl), nonce).1
            },
            None => final(window)@ == old(window)@ && *final(encr_curl) == *old(encr_curl),
        },
        final(window)@.len() == MESSAGE_NONCE_LENGTH,
        *final(curl) == C::blank(),
        *final(bcurl) == CB::blank(),
{
    curl.reset();
    bcurl.reset();
    let state = curl.state_mut();
    copy_trits(state, encr_curl.state());
    let found = H::search(security, 0, MESSAGE_NONCE_LENGTH, curl, bcurl);
    if found.is_none() {
        curl.reset();
        bcurl.reset();
        return false;
    }
    copy_trits(window, slice_subrange(curl.rate(), 0, MESSAGE_NONCE_LENGTH));
    proof {
        lemma_masked_length(*encr_curl, window@);
    }
    mask_slice(window, encr_curl);
    bcurl.reset();
    curl.reset();
    true
}

/// Signs what the rate of the masking sponge `encr_curl` holds with the key of leaf
/// `leaf` under `seed`, and writes the signature, the number of sibling hashes and the
/// sibling hashes, masked, to `window`.
fn write_tail<C: Curl<Trit>, I: Iss>(
    seed: &[Trit],
    siblings: &[Trit],
    leaf: isize,
    security: u8,
    window: &mut [Trit],
    curl: &mut C,
    encr_curl: &mut C,
)
    requires
        seed@.len() == HASH_LENGTH,
        1 <= security <= 3,
        old(window)@.len() == security * KEY_LENGTH + encoded_len(
            (siblings@.len() / (HASH_LENGTH as nat)) as int,
        ) + siblings@.len(),
    ensures
        final(window)@ == masked(
            *old(encr_curl),
            tail_of::<C, I>(
                seed@,
                leaf as int,
                security as nat,
                old(encr_curl).rate_of(),
                siblings@,
            ),
        ).0,
        final(window)@.len() == old(window)@.len(),
        *final(curl) == C::blank(),
        *final(encr_curl) == C::blank(),
{
    let ghost entered = *encr_curl;
    let siblings_count = (siblings.len() / HASH_LENGTH) as isize;
    let siblings_p = encoded_length(siblings_count);
    let mut hash: [Trit; 243] = [0i8; 243];
    copy_trits(&mut hash, encr_curl.rate());
    let (key, path) = window.split_at_mut(security as usize * KEY_LENGTH);
    let (subseed, _) = key.split_at_mut(HASH_LENGTH);
    curl.reset();
    I::subseed(seed, leaf, subseed, curl);
    assert(key@.subrange(0, HASH_LENGTH as int) =~= I::subseed_of::<C>(seed@, leaf as int));
    curl.reset();
    I::key(key, security as usize, curl);
    curl.reset();
    I::signature(&hash, key, curl);
    curl.reset();
    let (count, hashes) = path.split_at_mut(siblings_p);
    encode(siblings_count, count);
    copy_trits(hashes, siblings);
    proof {
        assert(window@ =~= tail_of::<C, I>(
            seed@,
            leaf as int,
            security as nat,
            entered.rate_of(),
            siblings@,
        ));
        lemma_masked_length(entered, window@);
    }
    mask_slice(window, encr_curl);
    encr_curl.reset();
}

/// Makes the payload of `message`: signed with the key of leaf `start + index` under
/// `seed`, masked with `side_key` and `root`, and carrying `next` and `siblings`.
/// Returns the length of the payload, which starts `payload`; `None` where the search
/// for a nonce gave up, and `payload` then holds the payload up to the nonce.
pub fn create<C: Curl<Trit>, CB: Curl<BCTrit>, H: HammingNonce, I: Iss>(
    seed: &[Trit],
    message: &[Trit],
    side_key: &[Trit],
    root: &[Trit],
    siblings: &[Trit],
    next: &[Trit],
    start: isize,
    index: usize,
    security: u8,
    payload: &mut [Trit],
    curl: &mut C,
    encr_curl: &mut C,
    bcurl: &mut CB,
) -> (written: Option<usize>)
    requires
        seed@.len() == HASH_LENGTH,
        next@.len() == HASH_LENGTH,
        1 <= security <= 3,
        index <= isize::MAX,
        isize::MIN <= start + index <= isize::MAX,
        HASH_LENGTH + message@.len() <= isize::MAX,
        min_len(message@.len(), siblings@.len(), index as nat, security as nat) <= old(
            payload,
        )@.len(),
    ensures
        final(payload)@.len() == old(payload)@.len(),
        match written {
            Some(length) => {
                &&& length == min_len(
                    message@.len(),
                    siblings@.len(),
                    index as nat,
                    security as nat,
                )
                &&& created::<C, CB, H, I>(
                    seed@,
                    message@,
                    side_key@,
                    root@,
                    siblings@,
                    next@,
                    start as int,
                    index as nat,
                    security,
                ) == Some(final(payload)@.subrange(0, length as int))
                &&& final(payload)@.subrange(length as int, old(payload)@.len() as int) == old(
                    payload,
                )@.subrange(length as int, old(payload)@.len() as int)
            },
            None => {
                let written = frame(index as int, message@.len() as int) + masked_body::<C>(
                    side_key@,
                    root@,
                    index as int,
                    next@,
                    message@,
                ).0;
                &&& created::<C, CB, H, I>(
                    seed@,
                    message@,
                    side_key@,
                    root@,
                    siblings@,
                    next@,
                    start as int,
                    index as nat,
                    security,
                ) is None
                &&& final(payload)@ == written + old(payload)@.subrange(
                    written.len() as int,
                    old(payload)@.len() as int,
                )
            },
        },
        *final(curl) == C::blank(),
        *final(encr_curl) == C::blank(),
        *final(bcurl) == CB::blank(),
{
    let available = payload.len();
    let ghost given = payload@;
    let message_end = encoded_length(index as isize) + encoded_length(
        (HASH_LENGTH + message.len()) as isize,
    ) + HASH_LENGTH + message.len();
    let tail_length = security as usize * KEY_LENGTH + encoded_length(
        (siblings.len() / HASH_LENGTH) as isize,
    ) + siblings.len();
    let length = message_end + MESSAGE_NONCE_LENGTH + tail_length;
    let (used, unused) = payload.split_at_mut(length);
    let ghost rest = unused@;
    let (front, back) = used.split_at_mut(message_end);
    write_body(message, side_key, root, next, index, front, encr_curl);
    let (nonce, tail) = back.split_at_mut(MESSAGE_NONCE_LENGTH);
    let ghost nonce_given = nonce@;
    let ghost tail_given = tail@;
    if !write_nonce::<C, CB, H>(security, nonce, curl, encr_curl, bcurl) {
        encr_curl.reset();
        assert(payload@ =~= front@ + nonce_given + tail_given + rest);
        assert(nonce_given + tail_given + rest =~= given.subrange(
            message_end as int,
            available as int,
        ));
        assert(payload@ =~= front@ + given.subrange(message_end as int, available as int));
        return None;
    }
    write_tail::<C, I>(seed, siblings, start + index as isize, security, tail, curl, encr_curl);
    assert(payload@ =~= front@ + nonce@ + tail@ + rest);
    assert(payload@.subrange(0, length as int) =~= front@ + nonce@ + tail@);
    assert(payload@.subrange(length as int, available as int) =~= given.subrange(
        length as int,
        available as int,
    ));
    Some(length)
}

/// What reading a payload comes to, and what the payload then holds.
pub struct Parsed {
    pub result: Result<(usize, usize), MamError>,
    pub payload: Seq<Trit>,
}

/// What a payload says at its start: the index of the signing key, the length of what
/// is masked first, and where that begins.
pub open spec fn framing(payload: Seq<Trit>) -> Option<(int, int, nat)> {
    match decoding(payload) {
        None => None,
        Some((index, index_end)) => match decoding(
            payload.subrange(index_end as int, payload.len() as int),
        ) {
            None => None,
            Some((length, taken)) => if fits_isize(index) && fits_isize(length) {
                Some((index, length, index_end + taken))
            } else {
                None
            },
        },
    }
}

/// What the trits after a signature say: the number of sibling hashes and where they
/// begin, where the hashes are all there.
pub open spec fn branch(path: Seq<Trit>) -> Option<(nat, nat)> {
    match decoding(path) {
        None => None,
        Some((count, taken)) => if 0 <= count && fits_isize(count) && taken + count * HASH_LENGTH
            <= path.len() {
            Some((count as nat, taken))
        } else {
            None
        },
    }
}

/// Whether `address` at `index` leads to `root` with the sibling hashes that `path`
/// holds after their number.
pub open spec fn path_leads_to<C: Curl<Trit>>(
    address: Seq<Trit>,
    path: Seq<Trit>,
    index: nat,
    root: Seq<Trit>,
) -> bool {
    branch(path) matches Some((count, taken)) && root_of::<C>(
        address,
        path.subrange(taken as int, taken + count * HASH_LENGTH),
        index,
    ) == root
}

/// The address that `signature` and the `hash` it signs lead to: the start of what the
/// digest, at the start of what the signature turns into, turns into.
pub open spec fn recovered_address<C: Curl<Trit>, I: Iss>(
    hash: Seq<Trit>,
    signature: Seq<Trit>,
    security: nat,
) -> Seq<Trit> {
    I::address_of::<C>(
        I::digest_of::<C>(hash, signature).subrange(0, security * DIGEST_LENGTH),
    ).subrange(0, HASH_LENGTH as int)
}

/// What the check of the unmasked `tail` of a payload comes to, and what the tail then
/// holds. The signature is turned into the digest of its key, and that into an
/// address, where they stand; the address and the sibling hashes must lead to `root`.
/// The signature is invalid where they do not, and where the signature or the sibling
/// hashes are not all there.
#[verifier::opaque]
pub open spec fn checked<C: Curl<Trit>, I: Iss>(
    tail: Seq<Trit>,
    hash: Seq<Trit>,
    security: nat,
    index: int,
    root: Seq<Trit>,
) -> (Option<MamError>, Seq<Trit>) {
    let key_length = security * KEY_LENGTH;
    if key_length > tail.len() {
        (Some(MamError::InvalidSignature), tail)
    } else {
        let recovered = I::digest_of::<C>(hash, tail.subrange(0, key_length as int));
        let addressed = I::address_of::<C>(recovered.subrange(0, security * DIGEST_LENGTH));
        let path = tail.subrange(key_length as int, tail.len() as int);
        let left = addressed + recovered.subrange(
            security * DIGEST_LENGTH,
            key_length as int,
        ) + path;
        if path_leads_to::<C>(
            recovered_address::<C, I>(hash, tail.subrange(0, key_length as int), security),
            path,
            (index as usize) as nat,
            root,
        ) {
            (None, left)
        } else {
            (Some(MamError::InvalidSignature), left)
        }
    }
}

/// What reading `payload` with `side_key` and `root` comes to.
///
/// The payload is out of bounds where its two numbers cannot be read, where the length
/// it gives is less than a root, and where that length and a nonce do not fit. Else
/// the next root and the message are unmasked, and the nonce. The hash is invalid
/// where what the rate then holds has no weight. Else the rest is unmasked and
/// checked.
#[verifier::opaque]
pub open spec fn parsed<C: Curl<Trit>, I: Iss>(
    payload: Seq<Trit>,
    side_key: Seq<Trit>,
    root: Seq<Trit>,
) -> Parsed {
    match framing(payload) {
        None => Parsed { result: Err(MamError::ArrayOutOfBounds), payload },
        Some((index, length, start)) => if length < HASH_LENGTH || start + length
            + MESSAGE_NONCE_LENGTH > payload.len() {
            Parsed { result: Err(MamError::ArrayOutOfBounds), payload }
        } else {
            let nonce_start = start + length;
            let tail_start = nonce_start + MESSAGE_NONCE_LENGTH;
            let keyed = channel::<C>(side_key, root).absorbed(payload.subrange(0, start as int));
            let body = unmasked(keyed, payload.subrange(start as int, nonce_start));
            let nonce = unmasked(body.1, payload.subrange(nonce_start, tail_start));
            let hash = nonce.1.rate_of();
            let head = payload.subrange(0, start as int) + body.0 + nonce.0;
            let sealed = payload.subrange(tail_start, payload.len() as int);
            if checksum_security_of(hash) == 0 {
                Parsed { result: Err(MamError::InvalidHash), payload: head + sealed }
            } else {
                let outcome = checked::<C, I>(
                    unmasked(nonce.1, sealed).0,
                    hash,
                    checksum_security_of(hash),
                    index,
                    root,
                );
                Parsed {
                    result: match outcome.0 {
                        None => Ok((start as usize, nonce_start as usize)),
                        Some(error) => Err(error),
                    },
                    payload: head + outcome.1,
                }
            }
        },
    }
}

/// Whether `a` and `b` hold the same trits.
fn same_trits(a: &[Trit], b: &[Trit]) -> (same: bool)
    ensures
        same == (a@ == b@),
{
    if a.len() != b.len() {
        return false;
    }
    let n = a.len();
    let mut i: usize = 0;
    while i < n
        invariant
            i <= n,
            n == a@.len(),
            n == b@.len(),
            forall|j: int| 0 <= j < i ==> a@[j] == b@[j],
        decreases n - i,
    {
        if a[i] != b[i] {
            return false;
        }
        i += 1;
    }
    assert(a@ =~= b@);
    true
}

/// Reads the two numbers at the start of `payload`: the index of the signing key, the
/// length of what is masked first, and where that begins.
pub fn read_frame(payload: &[Trit]) -> (r: Option<(isize, isize, usize)>)
    ensures
        match r {
            Some((index, length, start)) => framing(payload@) == Some(
                (index as int, length as int, start as nat),
            ) && start <= payload@.len(),
            None => framing(payload@) is None,
        },
{
    let total = payload.len();
    let (index, index_end) = match decode_checked(payload) {
        Some(read) => read,
        None => {
            return None;
        },
    };
    let (length, taken) = match decode_checked(slice_subrange(payload, index_end, total)) {
        Some(read) => read,
        None => {
            return None;
        },
    };
    Some((index, length, index_end + taken))
}

/// Reads the number of sibling hashes at the start of `path`, and where the hashes
/// begin. `None` where the number cannot be read or `path` does not hold as many.
pub fn read_branch(path: &[Trit]) -> (r: Option<(usize, usize)>)
    ensures
        match r {
            Some((count, taken)) => branch(path@) == Some((count as nat, taken as nat)),
            None => branch(path@) is None,
        },
{
    let (count, taken) = match decode_checked(path) {
        Some(read) => read,
        None => {
            return None;
        },
    };
    if count < 0 {
        return None;
    }
    let count = count as usize;
    if count > (path.len() - taken) / HASH_LENGTH {
        return None;
    }
    Some((count, taken))
}

/// Whether `address` at `index` leads to `root` with the sibling hashes that `path`
/// holds after their number.
pub fn leads_to_root<C: Curl<Trit>>(
    address: &[Trit],
    path: &[Trit],
    index: usize,
    root: &[Trit],
    curl: &mut C,
) -> (leads: bool)
    ensures
        leads == path_leads_to::<C>(address@, path@, index as nat, root@),
        *final(curl) == C::blank(),
{
    let total = path.len();
    match read_branch(path) {
        None => {
            curl.reset();
            false
        },
        Some((count, taken)) => {
            assert(taken + count * HASH_LENGTH <= total);
            let candidate = crate::merkle::root(
                address,
                slice_subrange(path, taken, taken + count * HASH_LENGTH),
                index,
                curl,
            );
            same_trits(candidate.as_slice(), root)
        },
    }
}

/// Checks the unmasked `tail` of a payload whose hash `hash` has weight `security`.
fn check_tail<C: Curl<Trit>, I: Iss>(
    tail: &mut [Trit],
    hash: &[Trit],
    security: usize,
    index: isize,
    root: &[Trit],
    curl: &mut C,
) -> (error: Option<MamError>)
    requires
        hash@.len() == HASH_LENGTH,
        1 <= security <= 3,
    ensures
        error == checked::<C, I>(old(tail)@, hash@, security as nat, index as int, root@).0,
        final(tail)@ == checked::<C, I>(old(tail)@, hash@, security as nat, index as int, root@).1,
        final(tail)@.len() == old(tail)@.len(),
        *final(curl) == C::blank(),
{
    let total = tail.len();
    let ghost given = tail@;
    let key_length = security * KEY_LENGTH;
    proof {
        reveal(checked);
    }
    curl.reset();
    if key_length > total {
        return Some(MamError::InvalidSignature);
    }
    let (signature, path) = tail.split_at_mut(key_length);
    I::digest_bundle_signature(hash, signature, curl);
    curl.reset();
    let ghost recovered = signature@;
    let (digest, spent) = signature.split_at_mut(security * DIGEST_LENGTH);
    I::address(digest, curl);
    curl.reset();
    let mut address: [Trit; 243] = [0i8; 243];
    copy_trits(&mut address, slice_subrange(digest, 0, HASH_LENGTH));
    let ghost addressed = digest@;
    let ghost rest = spent@;
    let ghost hashes = path@;
    let leads = leads_to_root(&address, path, index as usize, root, curl);
    proof {
        assert(rest =~= recovered.subrange(security * DIGEST_LENGTH, key_length as int));
        assert(hashes =~= given.subrange(key_length as int, total as int));
        assert(tail@ =~= addressed + rest + hashes);
    }
    if leads {
        None
    } else {
        Some(MamError::InvalidSignature)
    }
}

/// Reads `payload` with `side_key` and `root`, unmasking it where it stands. Returns
/// where the next root begins and where the message ends: the next root is the
/// `HASH_LENGTH` trits from the first index on, the message what follows up to the
/// second.
pub fn parse<C: Curl<Trit>, I: Iss>(
    payload: &mut [Trit],
    side_key: &[Trit],
    root: &[Trit],
    curl: &mut C,
) -> (r: Result<(usize, usize), MamError>)
    ensures
        r == parsed::<C, I>(old(payload)@, side_key@, root@).result,
        final(payload)@ == parsed::<C, I>(old(payload)@, side_key@, root@).payload,
        final(payload)@.len() == old(payload)@.len(),
        *final(curl) == C::blank(),
{
    let total = payload.len();
    let ghost given = payload@;
    proof {
        reveal(parsed);
    }
    curl.reset();
    let (index, length, start) = match read_frame(payload) {
        Some(read) => read,
        None => {
            return Err(MamError::ArrayOutOfBounds);
        },
    };
    if length < HASH_LENGTH as isize {
        return Err(MamError::ArrayOutOfBounds);
    }
    let length = length as usize;
    if length > total - start || total - start - length < MESSAGE_NONCE_LENGTH {
        return Err(MamError::ArrayOutOfBounds);
    }
    curl.absorb(side_key);
    curl.absorb(root);
    let (prefix, masked) = payload.split_at_mut(start);
    curl.absorb(prefix);
    let (body, sealed) = masked.split_at_mut(length);
    proof {
        assert(body@ =~= given.subrange(start as int, start + length));
        lemma_unmasked_length(*curl, body@);
    }
    unmask_slice(body, curl);
    let (nonce, tail) = sealed.split_at_mut(MESSAGE_NONCE_LENGTH);
    proof {
        assert(nonce@ =~= given.subrange(
            start + length,
            start + length + MESSAGE_NONCE_LENGTH,
        ));
        lemma_unmasked_length(*curl, nonce@);
    }
    unmask_slice(nonce, curl);
    let mut hash: [Trit; 243] = [0i8; 243];
    copy_trits(&mut hash, curl.rate());
    let security = checksum_security(&hash);
    let ghost tail_given = tail@;
    assert(tail_given =~= given.subrange(
        start + length + MESSAGE_NONCE_LENGTH,
        total as int,
    ));
    if security == 0 {
        curl.reset();
        assert(payload@ =~= prefix@ + body@ + nonce@ + tail_given);
        return Err(MamError::InvalidHash);
    }
    proof {
        lemma_unmasked_length(*curl, tail@);
    }
    unmask_slice(tail, curl);
    let error = check_tail::<C, I>(tail, &hash, security, index, root, curl);
    assert(payload@ =~= prefix@ + body@ + nonce@ + tail@);
    match error {
        None => Ok((start, start + length)),
        Some(error) => Err(error),
    }
}

/// The two numbers of a frame are read back from a payload that starts with them.
pub proof fn lemma_frame_read(index: int, message_length: int, rest: Seq<Trit>)
    requires
        fits_isize(index),
        fits_isize(HASH_LENGTH + message_length),
    ensures
        framing(frame(index, message_length) + rest) == Some(
            (index, HASH_LENGTH + message_length, frame(index, message_length).len()),
        ),
        frame(index, message_length).len() == encoded_len(index) + encoded_len(
            HASH_LENGTH + message_length,
        ),
{
    let first = encoding(index);
    let second = encoding(HASH_LENGTH + message_length);
    let payload = frame(index, message_length) + rest;
    theorem_round_trip(index, second + rest);
    theorem_round_trip(HASH_LENGTH + message_length, rest);
    assert(payload =~= first + (second + rest));
    assert(payload.subrange(first.len() as int, payload.len() as int) =~= second + rest);
}

/// The number of sibling hashes is read back from what holds it and the hashes,
/// whatever follows them.
pub proof fn lemma_branch_read(siblings: Seq<Trit>, rest: Seq<Trit>)
    requires
        siblings.len() % (HASH_LENGTH as nat) == 0,
        siblings.len() / (HASH_LENGTH as nat) <= isize::MAX,
    ensures
        branch(encoding((siblings.len() / (HASH_LENGTH as nat)) as int) + siblings + rest)
            == Some(
            (
                siblings.len() / (HASH_LENGTH as nat),
                encoded_len((siblings.len() / (HASH_LENGTH as nat)) as int),
            ),
        ),
{
    let count = (siblings.len() / (HASH_LENGTH as nat)) as int;
    theorem_round_trip(count, siblings + rest);
    assert(encoding(count) + siblings + rest =~= encoding(count) + (siblings + rest));
}

/// The parts of four sequences joined.
proof fn lemma_four_parts(a: Seq<Trit>, b: Seq<Trit>, c: Seq<Trit>, d: Seq<Trit>)
    ensures
        a + b + c + d == a + (b + c + d),
        (a + b + c + d).subrange(0, a.len() as int) == a,
        (a + b + c + d).subrange(a.len() as int, (a.len() + b.len()) as int) == b,
        (a + b + c + d).subrange(
            (a.len() + b.len()) as int,
            (a.len() + b.len() + c.len()) as int,
        ) == c,
        (a + b + c + d).subrange(
            (a.len() + b.len() + c.len()) as int,
            (a + b + c + d).len() as int,
        ) == d,
{
    let s = a + b + c + d;
    assert(s =~= a + (b + c + d));
    assert(s.subrange(0, a.len() as int) =~= a);
    assert(s.subrange(a.len() as int, (a.len() + b.len()) as int) =~= b);
    assert(s.subrange((a.len() + b.len()) as int, (a.len() + b.len() + c.len()) as int) =~= c);
    assert(s.subrange((a.len() + b.len() + c.len()) as int, s.len() as int) =~= d);
}

/// The parts of a sequence that is two sequences joined.
proof fn lemma_two_parts(s: Seq<Trit>, a: Seq<Trit>, b: Seq<Trit>)
    requires
        s == a + b,
    ensures
        s.subrange(0, a.len() as int) == a,
        s.subrange(a.len() as int, (a.len() + b.len()) as int) == b,
{
    assert(s.subrange(0, a.len() as int) =~= a);
    assert(s.subrange(a.len() as int, (a.len() + b.len()) as int) =~= b);
}

/// A part of a part of a sequence is a part of the sequence.
proof fn lemma_part_of_part(s: Seq<Trit>, a: int, b: int, c: int, d: int)
    requires
        0 <= a <= b <= s.len(),
        0 <= c <= d <= b - a,
    ensures
        s.subrange(a, b).subrange(c, d) == s.subrange(a + c, a + d),
{
    assert(s.subrange(a, b).subrange(c, d) =~= s.subrange(a + c, a + d));
}

/// Trits joined to trits are trits.
proof fn lemma_trits_joined(a: Seq<Trit>, b: Seq<Trit>)
    requires
        valid_trits(a),
        valid_trits(b),
    ensures
        valid_trits(a + b),
{
    assert forall|i: int| 0 <= i < (a + b).len() implies crate::trits::is_trit(
        #[trigger] (a + b)[i],
    ) by {
        if i < a.len() {
            assert((a + b)[i] == a[i]);
        } else {
            assert((a + b)[i] == b[i - a.len()]);
        }
    }
}

/// The tail that `create` made passes the check, whatever follows it, where its
/// signature has the length of its security and leads, with the sibling hashes, to the
/// root.
proof fn lemma_made_tail_checks<C: Curl<Trit>, I: Iss>(
    signature: Seq<Trit>,
    siblings: Seq<Trit>,
    rest: Seq<Trit>,
    hash: Seq<Trit>,
    security: nat,
    index: nat,
    root: Seq<Trit>,
)
    requires
        siblings.len() % (HASH_LENGTH as nat) == 0,
        siblings.len() / (HASH_LENGTH as nat) <= isize::MAX,
        index <= isize::MAX,
        signature.len() == security * KEY_LENGTH,
        root_of::<C>(recovered_address::<C, I>(hash, signature, security), siblings, index)
            == root,
    ensures
        checked::<C, I>(
            signature + encoding((siblings.len() / (HASH_LENGTH as nat)) as int) + siblings
                + rest,
            hash,
            security,
            index as int,
            root,
        ).0 is None,
{
    let count = (siblings.len() / (HASH_LENGTH as nat)) as int;
    let tail = signature + encoding(count) + siblings + rest;
    let key_length = security * KEY_LENGTH;
    let path = tail.subrange(key_length as int, tail.len() as int);
    reveal(checked);
    theorem_round_trip(count, siblings + rest);
    lemma_branch_read(siblings, rest);
    assert(tail.subrange(0, key_length as int) =~= signature);
    assert(path =~= encoding(count) + siblings + rest);
    let taken = encoded_len(count) as int;
    assert(path.subrange(taken, taken + count * HASH_LENGTH) =~= siblings);
    assert((index as int) as usize == index);
}

/// What reading a payload of four parts comes to, where its frame says so, the hash
/// after the second and third part has weight and the last part passes the check.
proof fn lemma_parsed_of_parts<C: Curl<Trit>, I: Iss>(
    head: Seq<Trit>,
    body: Seq<Trit>,
    nonce: Seq<Trit>,
    tail: Seq<Trit>,
    side_key: Seq<Trit>,
    root: Seq<Trit>,
    index: int,
)
    requires
        framing(head + body + nonce + tail) == Some((index, body.len() as int, head.len())),
        body.len() >= HASH_LENGTH,
        nonce.len() == MESSAGE_NONCE_LENGTH,
        ({
            let opened = unmasked(channel::<C>(side_key, root).absorbed(head), body);
            let hash = unmasked(opened.1, nonce).1.rate_of();
            &&& checksum_security_of(hash) != 0
            &&& checked::<C, I>(
                unmasked(unmasked(opened.1, nonce).1, tail).0,
                hash,
                checksum_security_of(hash),
                index,
                root,
            ).0 is None
        }),
    ensures
        ({
            let read = parsed::<C, I>(head + body + nonce + tail, side_key, root);
            let opened = unmasked(channel::<C>(side_key, root).absorbed(head), body);
            &&& read.result == Ok::<(usize, usize), MamError>(
                (head.len() as usize, (head.len() + body.len()) as usize),
            )
            &&& read.payload.len() >= head.len() + opened.0.len()
            &&& read.payload.subrange(head.len() as int, (head.len() + opened.0.len()) as int)
                == opened.0
        }),
{
    let payload = head + body + nonce + tail;
    lemma_four_parts(head, body, nonce, tail);
    reveal(parsed);
    let opened = unmasked(channel::<C>(side_key, root).absorbed(head), body);
    let read = parsed::<C, I>(payload, side_key, root).payload;
    assert(read.subrange(head.len() as int, (head.len() + opened.0.len()) as int) =~= opened.0);
}

/// A payload that `create` made is read back with the side key and the root it was
/// made with, whatever follows it: reading it gives where the next root begins and
/// where the message ends, and the payload then holds the next root and the message
/// there.
///
/// This holds where what was masked is made of trits, the nonce of
/// `MESSAGE_NONCE_LENGTH` of them and the signature of `KEY_LENGTH` per unit of
/// security; where the hash that was signed has just the weight `security`; and where
/// the address that the signature leads to, and the sibling hashes, lead to the root.
pub proof fn theorem_parse_reads_created<
    C: Curl<Trit>,
    CB: Curl<BCTrit>,
    H: HammingNonce,
    I: Iss,
>(
    seed: Seq<Trit>,
    message: Seq<Trit>,
    side_key: Seq<Trit>,
    root: Seq<Trit>,
    siblings: Seq<Trit>,
    next: Seq<Trit>,
    start: int,
    index: nat,
    security: u8,
    rest: Seq<Trit>,
)
    requires
        next.len() == HASH_LENGTH,
        valid_trits(next),
        valid_trits(message),
        valid_trits(siblings),
        siblings.len() % (HASH_LENGTH as nat) == 0,
        1 <= security <= 3,
        index <= isize::MAX,
        HASH_LENGTH + message.len() <= isize::MAX,
        min_len(message.len(), siblings.len(), index, security as nat) + rest.len()
            <= usize::MAX,
        nonce_of::<C, CB, H>(
            masked_body::<C>(side_key, root, index as int, next, message).1,
            security,
        ) matches Some(nonce) && {
            let sealed = masked(
                masked_body::<C>(side_key, root, index as int, next, message).1,
                nonce,
            );
            let hash = sealed.1.rate_of();
            let signature = signature_of::<C, I>(seed, start + index, security as nat, hash);
            &&& nonce.len() == MESSAGE_NONCE_LENGTH
            &&& valid_trits(nonce)
            &&& signature.len() == security * KEY_LENGTH
            &&& valid_trits(signature)
            &&& checksum_security_of(hash) == security
            &&& root_of::<C>(
                recovered_address::<C, I>(hash, signature, security as nat),
                siblings,
                index,
            ) == root
        },
    ensures
        created::<C, CB, H, I>(
            seed,
            message,
            side_key,
            root,
            siblings,
            next,
            start,
            index,
            security,
        ) matches Some(payload) && {
            let read = parsed::<C, I>(payload + rest, side_key, root);
            let from = frame(index as int, message.len() as int).len();
            &&& payload.len() == min_len(message.len(), siblings.len(), index, security as nat)
            &&& read.result == Ok::<(usize, usize), MamError>(
                (from as usize, (from + HASH_LENGTH + message.len()) as usize),
            )
            &&& read.payload.subrange(from as int, from + HASH_LENGTH) == next
            &&& read.payload.subrange(
                from + HASH_LENGTH,
                from + HASH_LENGTH + message.len(),
            ) == message
        },
{
    let m = message.len() as int;
    let head = frame(index as int, m);
    let keyed = channel::<C>(side_key, root).absorbed(head);
    let body = masked_body::<C>(side_key, root, index as int, next, message);
    let nonce = nonce_of::<C, CB, H>(body.1, security)->0;
    let sealed = masked(body.1, nonce);
    let hash = sealed.1.rate_of();
    let signature = signature_of::<C, I>(seed, start + index, security as nat, hash);
    let count = (siblings.len() / (HASH_LENGTH as nat)) as int;
    let tail = tail_of::<C, I>(seed, start + index, security as nat, hash, siblings);
    let closing = masked(sealed.1, tail);
    let payload = head + body.0 + sealed.0 + closing.0;
    let from = head.len();
    let length = HASH_LENGTH + m;

    lemma_masked_length(keyed, next + message);
    lemma_masked_length(body.1, nonce);
    lemma_masked_length(sealed.1, tail);
    theorem_round_trip(count, siblings);
    lemma_four_parts(head, body.0, sealed.0, closing.0 + rest);
    assert(payload + rest =~= head + body.0 + sealed.0 + (closing.0 + rest));
    lemma_frame_read(index as int, m, body.0 + sealed.0 + (closing.0 + rest));
    lemma_trits_joined(next, message);
    theorem_unmask_inverts_mask(keyed, next + message);
    theorem_unmask_inverts_mask(body.1, nonce);
    lemma_trits_joined(signature, encoding(count));
    lemma_trits_joined(signature + encoding(count), siblings);
    theorem_unmask_inverts_mask(sealed.1, tail);
    // what follows the payload is unmasked after it and leaves it as it is
    lemma_unmasked_prefix(sealed.1, closing.0, rest);
    let opened = unmasked(sealed.1, closing.0 + rest).0;
    let after = opened.subrange(tail.len() as int, opened.len() as int);
    assert(opened =~= tail + after);
    assert(siblings.len() <= usize::MAX);
    assert(usize::MAX <= 2 * isize::MAX + 1);
    assert(siblings.len() / (HASH_LENGTH as nat) <= isize::MAX);
    lemma_made_tail_checks::<C, I>(
        signature,
        siblings,
        after,
        hash,
        security as nat,
        index,
        root,
    );
    lemma_parsed_of_parts::<C, I>(
        head,
        body.0,
        sealed.0,
        closing.0 + rest,
        side_key,
        root,
        index as int,
    );
    let read = parsed::<C, I>(payload + rest, side_key, root).payload;
    lemma_two_parts(read.subrange(from as int, from + length), next, message);
    lemma_part_of_part(read, from as int, from + length, 0, HASH_LENGTH as int);
    lemma_part_of_part(read, from as int, from + length, HASH_LENGTH as int, length);
}

/// A payload is read only where it is whole, its hash has weight and its signature and
/// sibling hashes lead to the root: whatever else is in it, reading it fails. What is
/// read is what the sponge unmasks after the side key, the root and the frame.
pub proof fn theorem_read_means_rooted<C: Curl<Trit>, I: Iss>(
    payload: Seq<Trit>,
    side_key: Seq<Trit>,
    root: Seq<Trit>,
)
    requires
        parsed::<C, I>(payload, side_key, root).result is Ok,
    ensures
        framing(payload) matches Some((index, length, start)) && {
            let read = parsed::<C, I>(payload, side_key, root);
            let keyed = channel::<C>(side_key, root).absorbed(payload.subrange(0, start as int));
            let body = unmasked(keyed, payload.subrange(start as int, start + length));
            let nonce = unmasked(
                body.1,
                payload.subrange(start + length, start + length + MESSAGE_NONCE_LENGTH),
            );
            let hash = nonce.1.rate_of();
            let security = checksum_security_of(hash);
            let tail = unmasked(
                nonce.1,
                payload.subrange(
                    start + length + MESSAGE_NONCE_LENGTH,
                    payload.len() as int,
                ),
            ).0;
            let path = tail.subrange((security * KEY_LENGTH) as int, tail.len() as int);
            &&& read.result == Ok::<(usize, usize), MamError>(
                (start as usize, (start + length) as usize),
            )
            &&& length >= HASH_LENGTH
            &&& start + length + MESSAGE_NONCE_LENGTH <= payload.len()
            &&& read.payload.len() >= start + body.0.len()
            &&& read.payload.subrange(start as int, (start + body.0.len()) as int) == body.0
            &&& 1 <= security <= 3
            &&& security * KEY_LENGTH <= tail.len()
            &&& path_leads_to::<C>(
                recovered_address::<C, I>(
                    hash,
                    tail.subrange(0, (security * KEY_LENGTH) as int),
                    security,
                ),
                path,
                (index as usize) as nat,
                root,
            )
        },
{
    reveal(parsed);
    reveal(checked);
    let (index, length, start) = framing(payload)->0;
    let keyed = channel::<C>(side_key, root).absorbed(payload.subrange(0, start as int));
    let body = unmasked(keyed, payload.subrange(start as int, start + length));
    let read = parsed::<C, I>(payload, side_key, root);
    assert(read.payload.subrange(start as int, (start + body.0.len()) as int) =~= body.0);
}

} // verus!
