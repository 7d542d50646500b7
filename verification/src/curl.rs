//! The sponge that the rest of the library hashes and masks with, as an interface.
//!
//! A sponge is used here through what it does alone: `absorb`, `squeeze`, `duplex`,
//! `rate`, `state`, `state_mut` and `reset`. What these compute is fixed by the
//! implementation. The model side of the interface says that each is a function of the
//! sponge and of what it is given, and nothing about which function: that is what the
//! proofs of this library rest on. An implementation written outside verified code
//! keeps the model functions as they stand here, and the contracts of its methods are
//! then taken on trust.

use vstd::prelude::*;
use crate::trits::Trit;
use crate::trits::HASH_LENGTH;
use crate::trits::STATE_LENGTH;

verus! {

/// A trit of 64 or 32 lanes, coded in two words.
pub type BCTrit = (usize, usize);

/// A sponge over elements of type `T`: trits, or trits coded for many lanes.
pub trait Curl<T>: Sized {
    /// The sponge after `reset`.
    open spec fn blank() -> Self {
        arbitrary()
    }

    /// The state, `STATE_LENGTH` elements.
    open spec fn state_of(&self) -> Seq<T> {
        arbitrary()
    }

    /// The sponge after it has absorbed `trits`.
    open spec fn absorbed(&self, trits: Seq<T>) -> Self {
        arbitrary()
    }

    /// What the sponge gives when `count` elements are squeezed out of it.
    open spec fn squeezed_out(&self, count: nat) -> Seq<T> {
        arbitrary()
    }

    /// The sponge after `count` elements have been squeezed out of it.
    open spec fn squeezed(&self, count: nat) -> Self {
        arbitrary()
    }

    /// What the sponge gives for `count` elements while it takes `trits` in.
    open spec fn duplexed_out(&self, trits: Seq<T>, count: nat) -> Seq<T> {
        arbitrary()
    }

    /// The sponge after it has taken `trits` in and given `count` elements.
    open spec fn duplexed(&self, trits: Seq<T>, count: nat) -> Self {
        arbitrary()
    }

    /// The sponge with `state` written over its state.
    open spec fn with_state(&self, state: Seq<T>) -> Self {
        arbitrary()
    }

    /// The rate: the first `HASH_LENGTH` elements of the state.
    open spec fn rate_of(&self) -> Seq<T> {
        self.state_of().subrange(0, HASH_LENGTH as int)
    }

    /// Takes `trits` in.
    fn absorb(&mut self, trits: &[T])
        ensures
            *final(self) == old(self).absorbed(trits@),
    ;

    /// Fills `out`.
    fn squeeze(&mut self, out: &mut [T])
        ensures
            final(out)@ == old(self).squeezed_out(old(out)@.len()),
            final(out)@.len() == old(out)@.len(),
            *final(self) == old(self).squeezed(old(out)@.len()),
    ;

    /// Takes `trits` in and fills `out`, window by window.
    fn duplex(&mut self, trits: &[T], out: &mut [T])
        ensures
            final(out)@ == old(self).duplexed_out(trits@, old(out)@.len()),
            final(out)@.len() == old(out)@.len(),
            *final(self) == old(self).duplexed(trits@, old(out)@.len()),
    ;

    /// The rate.
    fn rate(&self) -> (rate: &[T])
        ensures
            rate@ == self.rate_of(),
            rate@.len() == HASH_LENGTH,
    ;

    /// The whole state.
    fn state(&self) -> (state: &[T])
        ensures
            state@ == self.state_of(),
            state@.len() == STATE_LENGTH,
    ;

    /// The whole state, to be written.
    fn state_mut(&mut self) -> (state: &mut [T])
        ensures
            state@ == old(self).state_of(),
            state@.len() == STATE_LENGTH,
            *final(self) == old(self).with_state(final(state)@),
    ;

    /// Brings the sponge back to where it started.
    fn reset(&mut self)
        ensures
            *final(self) == Self::blank(),
    ;
}

/// The search for a nonce that gives a hash its proof of work.
///
/// A search starts from a sponge in the state of the sponge that masks a payload, and
/// leaves the nonce at the start of its rate. The payload is read back where the
/// masking sponge, once it has absorbed the nonce as it is masked, holds a hash whose
/// weight is just the security asked for. Nothing here says that a search finds such a
/// nonce, or any.
pub trait HammingNonce {
    /// Whether a search from `tcurl` finds a nonce.
    open spec fn found<C: Curl<Trit>, CB: Curl<BCTrit>>(
        security: u8,
        offset: usize,
        length: usize,
        tcurl: C,
        bcurl: CB,
    ) -> Option<usize> {
        arbitrary()
    }

    /// `tcurl` after the search, with the nonce in its rate.
    open spec fn searched<C: Curl<Trit>, CB: Curl<BCTrit>>(
        security: u8,
        offset: usize,
        length: usize,
        tcurl: C,
        bcurl: CB,
    ) -> C {
        arbitrary()
    }

    /// Searches for `length` trits at `offset` of the rate of `tcurl` with which the
    /// hash of the state has weight `security`. Returns `None` where it gave up.
    fn search<C: Curl<Trit>, CB: Curl<BCTrit>>(
        security: u8,
        offset: usize,
        length: usize,
        tcurl: &mut C,
        bcurl: &mut CB,
    ) -> (r: Option<usize>)
        requires
            1 <= security <= 3,
            offset + length <= HASH_LENGTH,
        ensures
            r == Self::found(security, offset, length, *old(tcurl), *old(bcurl)),
            *final(tcurl) == Self::searched(security, offset, length, *old(tcurl), *old(bcurl)),
    ;
}

} // verus!
