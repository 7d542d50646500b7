//! Masking a payload with the rate of a sponge.
//!
//! A payload is masked window by window, each window `HASH_LENGTH` trits long but for
//! the last. The rate of the sponge is added to the window, trit by trit modulo 3, and
//! the sponge then absorbs the masked window. Unmasking takes the rate away from the
//! window and absorbs the window as it was, still masked. Both sides so absorb the same
//! trits and go through the same states.

use vstd::prelude::*;
use vstd::slice::slice_subrange;
use crate::curl::Curl;
use crate::trits::Trit;
use crate::trits::HASH_LENGTH;
use crate::trits::valid_trits;
use crate::trits::is_trit;
use crate::trits::trit_sum_of;
use crate::trits::trit_diff_of;
use crate::trits::trit_sum;
use crate::trits::trit_diff;
use crate::trits::copy_trits;
use crate::trits::lemma_trit_sum_diff;

verus! {

/// `window` with `rate` added to it, trit by trit.
pub open spec fn masked_window(window: Seq<Trit>, rate: Seq<Trit>) -> Seq<Trit> {
    Seq::new(window.len(), |i: int| trit_sum_of(window[i], rate[i]))
}

/// `window` with `rate` taken away from it, trit by trit.
pub open spec fn unmasked_window(window: Seq<Trit>, rate: Seq<Trit>) -> Seq<Trit> {
    Seq::new(window.len(), |i: int| trit_diff_of(window[i], rate[i]))
}

/// The length of the first window of `len` trits.
pub open spec fn window_length(len: nat) -> nat {
    if len < HASH_LENGTH {
        len
    } else {
        HASH_LENGTH as nat
    }
}

/// `payload` masked with `sponge`, and the sponge after it.
pub open spec fn masked<C: Curl<Trit>>(sponge: C, payload: Seq<Trit>) -> (Seq<Trit>, C)
    decreases payload.len(),
{
    if payload.len() == 0 {
        (payload, sponge)
    } else {
        let n = window_length(payload.len()) as int;
        let cipher = masked_window(payload.subrange(0, n), sponge.rate_of());
        let rest = masked(sponge.absorbed(cipher), payload.subrange(n, payload.len() as int));
        (cipher + rest.0, rest.1)
    }
}

/// `payload` unmasked with `sponge`, and the sponge after it.
pub open spec fn unmasked<C: Curl<Trit>>(sponge: C, payload: Seq<Trit>) -> (Seq<Trit>, C)
    decreases payload.len(),
{
    if payload.len() == 0 {
        (payload, sponge)
    } else {
        let n = window_length(payload.len()) as int;
        let cipher = payload.subrange(0, n);
        let plain = unmasked_window(cipher, sponge.rate_of());
        let rest = unmasked(sponge.absorbed(cipher), payload.subrange(n, payload.len() as int));
        (plain + rest.0, rest.1)
    }
}

/// What is masked keeps its length, and is made of trits.
pub proof fn lemma_masked_length<C: Curl<Trit>>(sponge: C, payload: Seq<Trit>)
    ensures
        masked(sponge, payload).0.len() == payload.len(),
        valid_trits(masked(sponge, payload).0),
    decreases payload.len(),
{
    if payload.len() > 0 {
        let n = window_length(payload.len()) as int;
        let cipher = masked_window(payload.subrange(0, n), sponge.rate_of());
        lemma_masked_length(sponge.absorbed(cipher), payload.subrange(n, payload.len() as int));
    }
}

/// What is unmasked keeps its length, and is made of trits.
pub proof fn lemma_unmasked_length<C: Curl<Trit>>(sponge: C, payload: Seq<Trit>)
    ensures
        unmasked(sponge, payload).0.len() == payload.len(),
        valid_trits(unmasked(sponge, payload).0),
    decreases payload.len(),
{
    if payload.len() > 0 {
        let n = window_length(payload.len()) as int;
        let cipher = payload.subrange(0, n);
        lemma_unmasked_length(sponge.absorbed(cipher), payload.subrange(n, payload.len() as int));
    }
}

/// Unmasking with a sponge in the state in which masking began gives the payload back,
/// and leaves the sponge in the state in which masking ended.
pub proof fn theorem_unmask_inverts_mask<C: Curl<Trit>>(sponge: C, payload: Seq<Trit>)
    requires
        valid_trits(payload),
    ensures
        unmasked(sponge, masked(sponge, payload).0) == (payload, masked(sponge, payload).1),
    decreases payload.len(),
{
    if payload.len() > 0 {
        let len = payload.len() as int;
        let n = window_length(payload.len()) as int;
        let rate = sponge.rate_of();
        let cipher = masked_window(payload.subrange(0, n), rate);
        let next = sponge.absorbed(cipher);
        let tail = payload.subrange(n, len);
        let rest = masked(next, tail);
        let whole = cipher + rest.0;
        lemma_masked_length(next, tail);
        theorem_unmask_inverts_mask(next, tail);
        assert(whole.subrange(0, n) =~= cipher);
        assert(whole.subrange(n, len) =~= rest.0);
        assert(unmasked_window(cipher, rate) =~= payload.subrange(0, n)) by {
            assert forall|i: int| 0 <= i < n implies unmasked_window(cipher, rate)[i]
                == payload[i] by {
                assert(is_trit(payload[i]));
                lemma_trit_sum_diff(payload[i], rate[i]);
            }
        }
        assert(payload.subrange(0, n) + tail =~= payload);
    }
}

/// Masking with a sponge in the state in which unmasking began gives the masked trits
/// back, where they are trits.
pub proof fn theorem_mask_inverts_unmask<C: Curl<Trit>>(sponge: C, payload: Seq<Trit>)
    requires
        valid_trits(payload),
    ensures
        masked(sponge, unmasked(sponge, payload).0) == (payload, unmasked(sponge, payload).1),
    decreases payload.len(),
{
    if payload.len() > 0 {
        let len = payload.len() as int;
        let n = window_length(payload.len()) as int;
        let rate = sponge.rate_of();
        let cipher = payload.subrange(0, n);
        let plain = unmasked_window(cipher, rate);
        let next = sponge.absorbed(cipher);
        let tail = payload.subrange(n, len);
        let rest = unmasked(next, tail);
        let whole = plain + rest.0;
        lemma_unmasked_length(next, tail);
        theorem_mask_inverts_unmask(next, tail);
        assert(whole.subrange(0, n) =~= plain);
        assert(whole.subrange(n, len) =~= rest.0);
        assert(masked_window(plain, rate) =~= cipher) by {
            assert forall|i: int| 0 <= i < n implies masked_window(plain, rate)[i]
                == cipher[i] by {
                assert(is_trit(payload[i]));
                lemma_trit_sum_diff(payload[i], rate[i]);
            }
        }
        assert(cipher + tail =~= payload);
    }
}

/// What follows a payload does not change how the payload is unmasked.
pub proof fn lemma_unmasked_prefix<C: Curl<Trit>>(sponge: C, payload: Seq<Trit>, rest: Seq<Trit>)
    ensures
        unmasked(sponge, payload + rest).0.len() == payload.len() + rest.len(),
        unmasked(sponge, payload + rest).0.subrange(0, payload.len() as int) == unmasked(
            sponge,
            payload,
        ).0,
    decreases payload.len(),
{
    let whole = payload + rest;
    lemma_unmasked_length(sponge, whole);
    lemma_unmasked_length(sponge, payload);
    if payload.len() == 0 {
        assert(unmasked(sponge, whole).0.subrange(0, 0) =~= unmasked(sponge, payload).0);
    } else {
        let rate = sponge.rate_of();
        let n = window_length(whole.len()) as int;
        let cipher = whole.subrange(0, n);
        let next = sponge.absorbed(cipher);
        let after = unmasked(next, whole.subrange(n, whole.len() as int));
        lemma_unmasked_length(next, whole.subrange(n, whole.len() as int));
        if payload.len() >= HASH_LENGTH {
            let tail = payload.subrange(n, payload.len() as int);
            assert(cipher =~= payload.subrange(0, n));
            assert(whole.subrange(n, whole.len() as int) =~= tail + rest);
            lemma_unmasked_prefix(next, tail, rest);
            lemma_unmasked_length(next, tail);
            assert(unmasked(sponge, whole).0.subrange(0, payload.len() as int)
                =~= unmasked_window(cipher, rate) + after.0.subrange(0, tail.len() as int));
        } else {
            let m = payload.len() as int;
            let short = sponge.absorbed(payload.subrange(0, m));
            assert(payload.subrange(m, m) =~= Seq::<Trit>::empty());
            assert(unmasked(short, payload.subrange(m, m)).0 =~= Seq::<Trit>::empty());
            assert(unmasked(sponge, whole).0.subrange(0, m) =~= unmasked_window(
                payload.subrange(0, m),
                rate,
            ));
            assert(unmasked(sponge, payload).0 =~= unmasked_window(payload.subrange(0, m), rate));
        }
    }
}

/// Masks `payload` in place with `curl`.
pub fn mask_slice<C: Curl<Trit>>(payload: &mut [Trit], curl: &mut C)
    ensures
        final(payload)@ == masked(*old(curl), old(payload)@).0,
        final(payload)@.len() == old(payload)@.len(),
        *final(curl) == masked(*old(curl), old(payload)@).1,
{
    let n = payload.len();
    let mut pos: usize = 0;
    proof {
        let whole = masked(*curl, payload@).0;
        assert(payload@.subrange(0, n as int) =~= payload@);
        assert(payload@.subrange(0, 0) + whole =~= whole);
    }
    while pos < n
        invariant
            pos <= n,
            n == payload@.len(),
            n == old(payload)@.len(),
            payload@.subrange(pos as int, n as int) == old(payload)@.subrange(pos as int, n as int),
            masked(*old(curl), old(payload)@).0 == payload@.subrange(0, pos as int) + masked(
                *curl,
                old(payload)@.subrange(pos as int, n as int),
            ).0,
            masked(*old(curl), old(payload)@).1 == masked(
                *curl,
                old(payload)@.subrange(pos as int, n as int),
            ).1,
        decreases n - pos,
    {
        let len = if n - pos < HASH_LENGTH {
            n - pos
        } else {
            HASH_LENGTH
        };
        let ghost before = payload@;
        let ghost rest = old(payload)@.subrange(pos as int, n as int);
        let ghost cipher = masked_window(rest.subrange(0, len as int), curl.rate_of());
        let rate = curl.rate();
        let mut i: usize = 0;
        while i < len
            invariant
                i <= len,
                pos + len <= n,
                len <= HASH_LENGTH,
                n == payload@.len(),
                n == before.len(),
                rate@.len() == HASH_LENGTH,
                forall|j: int| 0 <= j < i ==> payload@[pos + j] == trit_sum_of(
                    before[pos + j],
                    rate@[j],
                ),
                forall|j: int| 0 <= j < pos ==> payload@[j] == before[j],
                forall|j: int| pos + i <= j < n ==> payload@[j] == before[j],
            decreases len - i,
        {
            payload[pos + i] = trit_sum(payload[pos + i], rate[i]);
            i += 1;
        }
        proof {
            assert(payload@.subrange(pos as int, pos + len) =~= cipher) by {
                assert forall|j: int| 0 <= j < len implies payload@[pos + j] == cipher[j] by {
                    assert(before.subrange(pos as int, n as int)[j] == rest[j]);
                }
            }
        }
        curl.absorb(slice_subrange(payload, pos, pos + len));
        proof {
            let tail = old(payload)@.subrange(pos + len, n as int);
            assert(rest.subrange(len as int, rest.len() as int) =~= tail);
            assert(payload@.subrange(pos + len, n as int) =~= tail) by {
                assert forall|j: int| 0 <= j < n - pos - len implies payload@[pos + len + j]
                    == tail[j] by {
                    assert(before.subrange(pos as int, n as int)[len + j] == rest[len + j]);
                }
            }
            assert(payload@.subrange(0, pos + len) =~= before.subrange(0, pos as int) + cipher);
        }
        pos += len;
    }
    assert(payload@.subrange(0, n as int) =~= payload@);
}

/// Unmasks `payload` in place with `curl`.
pub fn unmask_slice<C: Curl<Trit>>(payload: &mut [Trit], curl: &mut C)
    ensures
        final(payload)@ == unmasked(*old(curl), old(payload)@).0,
        final(payload)@.len() == old(payload)@.len(),
        *final(curl) == unmasked(*old(curl), old(payload)@).1,
{
    let n = payload.len();
    let mut pos: usize = 0;
    proof {
        let whole = unmasked(*curl, payload@).0;
        assert(payload@.subrange(0, n as int) =~= payload@);
        assert(payload@.subrange(0, 0) + whole =~= whole);
    }
    while pos < n
        invariant
            pos <= n,
            n == payload@.len(),
            n == old(payload)@.len(),
            payload@.subrange(pos as int, n as int) == old(payload)@.subrange(pos as int, n as int),
            unmasked(*old(curl), old(payload)@).0 == payload@.subrange(0, pos as int) + unmasked(
                *curl,
                old(payload)@.subrange(pos as int, n as int),
            ).0,
            unmasked(*old(curl), old(payload)@).1 == unmasked(
                *curl,
                old(payload)@.subrange(pos as int, n as int),
            ).1,
        decreases n - pos,
    {
        let len = if n - pos < HASH_LENGTH {
            n - pos
        } else {
            HASH_LENGTH
        };
        let ghost before = payload@;
        let ghost rest = old(payload)@.subrange(pos as int, n as int);
        let ghost cipher = rest.subrange(0, len as int);
        let ghost plain = unmasked_window(cipher, curl.rate_of());
        proof {
            assert(payload@.subrange(pos as int, pos + len) =~= cipher) by {
                assert forall|j: int| 0 <= j < len implies payload@[pos + j] == cipher[j] by {
                    assert(before.subrange(pos as int, n as int)[j] == rest[j]);
                }
            }
        }
        let mut rate: [Trit; 243] = [0i8; 243];
        copy_trits(&mut rate, curl.rate());
        curl.absorb(slice_subrange(payload, pos, pos + len));
        let mut i: usize = 0;
        while i < len
            invariant
                i <= len,
                pos + len <= n,
                len <= HASH_LENGTH,
                n == payload@.len(),
                n == before.len(),
                forall|j: int| 0 <= j < i ==> payload@[pos + j] == trit_diff_of(
                    before[pos + j],
                    rate@[j],
                ),
                forall|j: int| 0 <= j < pos ==> payload@[j] == before[j],
                forall|j: int| pos + i <= j < n ==> payload@[j] == before[j],
            decreases len - i,
        {
            payload[pos + i] = trit_diff(payload[pos + i], rate[i]);
            i += 1;
        }
        proof {
            let tail = old(payload)@.subrange(pos + len, n as int);
            assert(rest.subrange(len as int, rest.len() as int) =~= tail);
            assert(payload@.subrange(pos + len, n as int) =~= tail) by {
                assert forall|j: int| 0 <= j < n - pos - len implies payload@[pos + len + j]
                    == tail[j] by {
                    assert(before.subrange(pos as int, n as int)[len + j] == rest[len + j]);
                }
            }
            assert(payload@.subrange(pos as int, pos + len) =~= plain) by {
                assert forall|j: int| 0 <= j < len implies payload@[pos + j] == plain[j] by {
                    assert(before.subrange(pos as int, n as int)[j] == rest[j]);
                }
            }
            assert(payload@.subrange(0, pos + len) =~= before.subrange(0, pos as int) + plain);
        }
        pos += len;
    }
    assert(payload@.subrange(0, n as int) =~= payload@);
}

/// `payload` masked with a running key: the first window with `stream`, each later one
/// with the rate of the sponge, which absorbs each window before it is masked. With
/// it, the sponge after the last window.
pub open spec fn masked_in_clear<C: Curl<Trit>>(
    sponge: C,
    stream: Seq<Trit>,
    payload: Seq<Trit>,
) -> (Seq<Trit>, C)
    decreases payload.len(),
{
    if payload.len() == 0 {
        (payload, sponge)
    } else {
        let n = window_length(payload.len()) as int;
        let plain = payload.subrange(0, n);
        let next = sponge.absorbed(plain);
        let rest = masked_in_clear(next, next.rate_of(), payload.subrange(n, payload.len() as int));
        (masked_window(plain, stream) + rest.0, rest.1)
    }
}

/// `payload` unmasked with a running key: the first window with `stream`, each later
/// one with the rate of the sponge, which absorbs each window once it is unmasked.
pub open spec fn unmasked_in_clear<C: Curl<Trit>>(
    sponge: C,
    stream: Seq<Trit>,
    payload: Seq<Trit>,
) -> (Seq<Trit>, C)
    decreases payload.len(),
{
    if payload.len() == 0 {
        (payload, sponge)
    } else {
        let n = window_length(payload.len()) as int;
        let plain = unmasked_window(payload.subrange(0, n), stream);
        let next = sponge.absorbed(plain);
        let rest = unmasked_in_clear(
            next,
            next.rate_of(),
            payload.subrange(n, payload.len() as int),
        );
        (plain + rest.0, rest.1)
    }
}

/// What is masked with a running key keeps its length.
pub proof fn lemma_masked_in_clear_length<C: Curl<Trit>>(
    sponge: C,
    stream: Seq<Trit>,
    payload: Seq<Trit>,
)
    ensures
        masked_in_clear(sponge, stream, payload).0.len() == payload.len(),
    decreases payload.len(),
{
    if payload.len() > 0 {
        let n = window_length(payload.len()) as int;
        let next = sponge.absorbed(payload.subrange(0, n));
        lemma_masked_in_clear_length(
            next,
            next.rate_of(),
            payload.subrange(n, payload.len() as int),
        );
    }
}

/// Unmasking with a running key gives back what was masked with it, where sponge and
/// first key are those with which masking began.
pub proof fn theorem_unmask_inverts_mask_in_clear<C: Curl<Trit>>(
    sponge: C,
    stream: Seq<Trit>,
    payload: Seq<Trit>,
)
    requires
        valid_trits(payload),
    ensures
        unmasked_in_clear(sponge, stream, masked_in_clear(sponge, stream, payload).0) == (
            payload,
            masked_in_clear(sponge, stream, payload).1,
        ),
    decreases payload.len(),
{
    if payload.len() > 0 {
        let len = payload.len() as int;
        let n = window_length(payload.len()) as int;
        let plain = payload.subrange(0, n);
        let cipher = masked_window(plain, stream);
        let next = sponge.absorbed(plain);
        let tail = payload.subrange(n, len);
        let rest = masked_in_clear(next, next.rate_of(), tail);
        let whole = cipher + rest.0;
        lemma_masked_in_clear_length(next, next.rate_of(), tail);
        theorem_unmask_inverts_mask_in_clear(next, next.rate_of(), tail);
        assert(whole.subrange(0, n) =~= cipher);
        assert(whole.subrange(n, len) =~= rest.0);
        assert(unmasked_window(cipher, stream) =~= plain) by {
            assert forall|i: int| 0 <= i < n implies unmasked_window(cipher, stream)[i]
                == plain[i] by {
                assert(is_trit(payload[i]));
                lemma_trit_sum_diff(payload[i], stream[i]);
            }
        }
        assert(plain + tail =~= payload);
    }
}

/// The `HASH_LENGTH` trits that `curl` gives after it has absorbed `key`.
fn first_key<C: Curl<Trit>>(key: &[Trit], curl: &mut C) -> (stream: [Trit; 243])
    ensures
        stream@ == old(curl).absorbed(key@).squeezed_out(HASH_LENGTH as nat),
        *final(curl) == old(curl).absorbed(key@).squeezed(HASH_LENGTH as nat),
{
    let mut stream: [Trit; 243] = [0i8; 243];
    curl.absorb(key);
    curl.squeeze(&mut stream);
    stream
}

/// Masks `payload` in place with the key that `curl` makes of `key`.
pub fn mask<C: Curl<Trit>>(payload: &mut [Trit], key: &[Trit], curl: &mut C)
    ensures
        final(payload)@ == masked_in_clear(
            old(curl).absorbed(key@).squeezed(HASH_LENGTH as nat),
            old(curl).absorbed(key@).squeezed_out(HASH_LENGTH as nat),
            old(payload)@,
        ).0,
        *final(curl) == masked_in_clear(
            old(curl).absorbed(key@).squeezed(HASH_LENGTH as nat),
            old(curl).absorbed(key@).squeezed_out(HASH_LENGTH as nat),
            old(payload)@,
        ).1,
{
    let n = payload.len();
    let mut stream = first_key(key, curl);
    let ghost keyed = *curl;
    let ghost first = stream@;
    let mut pos: usize = 0;
    proof {
        let whole = masked_in_clear(keyed, first, payload@).0;
        assert(payload@.subrange(0, n as int) =~= payload@);
        assert(payload@.subrange(0, 0) + whole =~= whole);
    }
    while pos < n
        invariant
            pos <= n,
            n == payload@.len(),
            n == old(payload)@.len(),
            payload@.subrange(pos as int, n as int) == old(payload)@.subrange(pos as int, n as int),
            masked_in_clear(keyed, first, old(payload)@).0 == payload@.subrange(0, pos as int)
                + masked_in_clear(*curl, stream@, old(payload)@.subrange(pos as int, n as int)).0,
            masked_in_clear(keyed, first, old(payload)@).1 == masked_in_clear(
                *curl,
                stream@,
                old(payload)@.subrange(pos as int, n as int),
            ).1,
        decreases n - pos,
    {
        let len = if n - pos < HASH_LENGTH {
            n - pos
        } else {
            HASH_LENGTH
        };
        let ghost before = payload@;
        let ghost rest = old(payload)@.subrange(pos as int, n as int);
        let ghost plain = rest.subrange(0, len as int);
        let ghost cipher = masked_window(plain, stream@);
        proof {
            assert(payload@.subrange(pos as int, pos + len) =~= plain) by {
                assert forall|j: int| 0 <= j < len implies payload@[pos + j] == plain[j] by {
                    assert(before.subrange(pos as int, n as int)[j] == rest[j]);
                }
            }
        }
        curl.absorb(slice_subrange(payload, pos, pos + len));
        let mut i: usize = 0;
        while i < len
            invariant
                i <= len,
                pos + len <= n,
                len <= HASH_LENGTH,
                n == payload@.len(),
                n == before.len(),
                    forall|j: int| 0 <= j < i ==> payload@[pos + j] == trit_sum_of(
                    before[pos + j],
                    stream@[j],
                ),
                forall|j: int| 0 <= j < pos ==> payload@[j] == before[j],
                forall|j: int| pos + i <= j < n ==> payload@[j] == before[j],
            decreases len - i,
        {
            payload[pos + i] = trit_sum(payload[pos + i], stream[i]);
            i += 1;
        }
        proof {
            let tail = old(payload)@.subrange(pos + len, n as int);
            assert(rest.subrange(len as int, rest.len() as int) =~= tail);
            assert(payload@.subrange(pos + len, n as int) =~= tail) by {
                assert forall|j: int| 0 <= j < n - pos - len implies payload@[pos + len + j]
                    == tail[j] by {
                    assert(before.subrange(pos as int, n as int)[len + j] == rest[len + j]);
                }
            }
            assert(payload@.subrange(pos as int, pos + len) =~= cipher) by {
                assert forall|j: int| 0 <= j < len implies payload@[pos + j] == cipher[j] by {
                    assert(before.subrange(pos as int, n as int)[j] == rest[j]);
                }
            }
            assert(payload@.subrange(0, pos + len) =~= before.subrange(0, pos as int) + cipher);
        }
        copy_trits(&mut stream, curl.rate());
        pos += len;
    }
    assert(payload@.subrange(0, n as int) =~= payload@);
}

/// Unmasks `payload` in place with the key that `curl` makes of `key`.
pub fn unmask<C: Curl<Trit>>(payload: &mut [Trit], key: &[Trit], curl: &mut C)
    ensures
        final(payload)@ == unmasked_in_clear(
            old(curl).absorbed(key@).squeezed(HASH_LENGTH as nat),
            old(curl).absorbed(key@).squeezed_out(HASH_LENGTH as nat),
            old(payload)@,
        ).0,
        *final(curl) == unmasked_in_clear(
            old(curl).absorbed(key@).squeezed(HASH_LENGTH as nat),
            old(curl).absorbed(key@).squeezed_out(HASH_LENGTH as nat),
            old(payload)@,
        ).1,
{
    let n = payload.len();
    let mut stream = first_key(key, curl);
    let ghost keyed = *curl;
    let ghost first = stream@;
    let mut pos: usize = 0;
    proof {
        let whole = unmasked_in_clear(keyed, first, payload@).0;
        assert(payload@.subrange(0, n as int) =~= payload@);
        assert(payload@.subrange(0, 0) + whole =~= whole);
    }
    while pos < n
        invariant
            pos <= n,
            n == payload@.len(),
            n == old(payload)@.len(),
            payload@.subrange(pos as int, n as int) == old(payload)@.subrange(pos as int, n as int),
            unmasked_in_clear(keyed, first, old(payload)@).0 == payload@.subrange(0, pos as int)
                + unmasked_in_clear(*curl, stream@, old(payload)@.subrange(pos as int, n as int)).0,
            unmasked_in_clear(keyed, first, old(payload)@).1 == unmasked_in_clear(
                *curl,
                stream@,
                old(payload)@.subrange(pos as int, n as int),
            ).1,
        decreases n - pos,
    {
        let len = if n - pos < HASH_LENGTH {
            n - pos
        } else {
            HASH_LENGTH
        };
        let ghost before = payload@;
        let ghost rest = old(payload)@.subrange(pos as int, n as int);
        let ghost plain = unmasked_window(rest.subrange(0, len as int), stream@);
        let mut i: usize = 0;
        while i < len
            invariant
                i <= len,
                pos + len <= n,
                len <= HASH_LENGTH,
                n == payload@.len(),
                n == before.len(),
                    forall|j: int| 0 <= j < i ==> payload@[pos + j] == trit_diff_of(
                    before[pos + j],
                    stream@[j],
                ),
                forall|j: int| 0 <= j < pos ==> payload@[j] == before[j],
                forall|j: int| pos + i <= j < n ==> payload@[j] == before[j],
            decreases len - i,
        {
            payload[pos + i] = trit_diff(payload[pos + i], stream[i]);
            i += 1;
        }
        proof {
            assert(payload@.subrange(pos as int, pos + len) =~= plain) by {
                assert forall|j: int| 0 <= j < len implies payload@[pos + j] == plain[j] by {
                    assert(before.subrange(pos as int, n as int)[j] == rest[j]);
                }
            }
        }
        curl.absorb(slice_subrange(payload, pos, pos + len));
        proof {
            let tail = old(payload)@.subrange(pos + len, n as int);
            assert(rest.subrange(len as int, rest.len() as int) =~= tail);
            assert(payload@.subrange(pos + len, n as int) =~= tail) by {
                assert forall|j: int| 0 <= j < n - pos - len implies payload@[pos + len + j]
                    == tail[j] by {
                    assert(before.subrange(pos as int, n as int)[len + j] == rest[len + j]);
                }
            }
            assert(payload@.subrange(0, pos + len) =~= before.subrange(0, pos as int) + plain);
        }
        copy_trits(&mut stream, curl.rate());
        pos += len;
    }
    assert(payload@.subrange(0, n as int) =~= payload@);
}

} // verus!
