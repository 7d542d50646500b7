//! A self-delimiting encoding of signed integers in trits.
//!
//! Zero is the word `1 0 0 -1`. Any other number is written in balanced ternary over
//! whole trytes. Every tryte but the last is then stored with a value that is not
//! positive and the last with a positive one, so that a reader finds the end of the
//! number. An encoder number follows, in just enough trits for one bit per tryte; bit `i`
//! tells that tryte `i` is stored negated.

use vstd::prelude::*;
use crate::trits::Trit;
use crate::trits::valid_trits;
use crate::trits::valid_window;
use crate::trits::is_trit;
use crate::trits::pow2;
use crate::trits::pow3;
use crate::trits::window_value;
use crate::trits::max_value;
use crate::trits::magnitude;
use crate::trits::min_trits_of;
use crate::trits::rounded_third;
use crate::trits::balanced;
use crate::trits::negated_trit;
use crate::trits::min_trits;
use crate::trits::round_third;
use crate::trits::int2trits;
use crate::trits::trits2int;
use crate::trits::negated;
use crate::trits::halved;
use crate::trits::lemma_pow2_positive;
use crate::trits::lemma_pow2_monotonic;
use crate::trits::lemma_pow3_positive;
use crate::trits::lemma_max_value_monotonic;
use crate::trits::lemma_min_trits;
use crate::trits::lemma_min_trits_least;
use crate::trits::lemma_balanced_valid;
use crate::trits::lemma_balanced_value;
use crate::trits::lemma_window_value_bound;
use crate::trits::lemma_window_value_same;

verus! {

/// The encoding of zero.
pub open spec fn zero_word() -> Seq<Trit> {
    seq![1i8, 0i8, 0i8, -1i8]
}

/// `27^n`.
pub open spec fn pow27(n: nat) -> int
    decreases n,
{
    if n == 0 {
        1
    } else {
        27 * pow27((n - 1) as nat)
    }
}

/// The value of tryte `i` of `s`.
pub open spec fn tryte_value(s: Seq<Trit>, i: int) -> int {
    s[3 * i] + 3 * s[3 * i + 1] + 9 * s[3 * i + 2]
}

/// The trits that the digits of `v` take, in whole trytes.
pub open spec fn body_length(v: int) -> nat {
    rounded_third(min_trits_of(v))
}

/// The trits that the encoder of a body of `trytes` trytes takes.
pub open spec fn encoder_length(trytes: nat) -> nat {
    min_trits_of(pow2(trytes) - 1)
}

/// The length of the encoding of `v`.
pub open spec fn encoded_len(v: int) -> nat {
    if v == 0 {
        4
    } else {
        body_length(v) + encoder_length(body_length(v) / 3)
    }
}

/// Whether tryte `i` of `v` is stored negated: a positive one before the last, the last
/// if it is negative.
pub open spec fn is_flipped(v: int, i: int) -> bool {
    let digits = balanced(v, body_length(v));
    if 3 * i + 3 < body_length(v) {
        tryte_value(digits, i) > 0
    } else {
        tryte_value(digits, i) < 0
    }
}

/// The encoder of the first `m` trytes of `v`: bit `i` is set where tryte `i` is flipped.
pub open spec fn flip_mask(v: int, m: nat) -> int
    decreases m,
{
    if m == 0 {
        0
    } else {
        flip_mask(v, (m - 1) as nat) + if is_flipped(v, m - 1) {
            pow2((m - 1) as nat)
        } else {
            0
        }
    }
}

/// The digits of `v` with the flipped trytes negated.
pub open spec fn body(v: int) -> Seq<Trit> {
    let digits = balanced(v, body_length(v));
    Seq::new(
        body_length(v),
        |j: int|
            if is_flipped(v, j / 3) {
                negated_trit(digits[j])
            } else {
                digits[j]
            },
    )
}

/// The encoding of `v`.
#[verifier::opaque]
pub open spec fn encoding(v: int) -> Seq<Trit> {
    if v == 0 {
        zero_word()
    } else {
        body(v) + balanced(
            flip_mask(v, body_length(v) / 3),
            encoder_length(body_length(v) / 3),
        )
    }
}

/// The first tryte of `s` from tryte `i` on whose value is positive.
pub open spec fn first_positive(s: Seq<Trit>, i: nat) -> Option<nat>
    decreases s.len() - 3 * i,
{
    if 3 * i + 3 > s.len() {
        None
    } else if tryte_value(s, i as int) > 0 {
        Some(i)
    } else {
        first_positive(s, i + 1)
    }
}

/// Bit `i` of the encoder `e`.
pub open spec fn encoder_bit(e: int, i: nat) -> bool {
    halved(e, i) % 2 == 1
}

/// The value of tryte `i` of `s`, negated where the encoder `e` says so.
pub open spec fn signed_tryte(s: Seq<Trit>, e: int, i: nat) -> int {
    if encoder_bit(e, i) {
        -tryte_value(s, i as int)
    } else {
        tryte_value(s, i as int)
    }
}

/// The sum of `27^i` times the signed tryte `i` over the first `m` trytes of `s`.
pub open spec fn unflipped_sum(s: Seq<Trit>, e: int, m: nat) -> int
    decreases m,
{
    if m == 0 {
        0
    } else {
        unflipped_sum(s, e, (m - 1) as nat) + pow27((m - 1) as nat) * signed_tryte(
            s,
            e,
            (m - 1) as nat,
        )
    }
}

/// The number at the start of `s` and the count of trits it takes, where `s` starts
/// with an encoding made of trits.
#[verifier::opaque]
pub open spec fn decoding(s: Seq<Trit>) -> Option<(int, nat)> {
    if s.len() < 4 {
        None
    } else if s.subrange(0, 4) == zero_word() {
        Some((0int, 4nat))
    } else {
        match first_positive(s, 0) {
            None => None,
            Some(last) => {
                let start = 3 * (last + 1);
                let count = encoder_length(last + 1);
                if start + count > s.len() || !valid_window(s, 0, (start + count) as nat) {
                    None
                } else {
                    Some(
                        (
                            unflipped_sum(s, window_value(s, start as int, count), last + 1),
                            (start + count) as nat,
                        ),
                    )
                }
            },
        }
    }
}

/// Whether `v` is a number of this machine.
pub open spec fn fits_isize(v: int) -> bool {
    isize::MIN <= v <= isize::MAX
}

/// Powers of 27 are positive and grow.
pub proof fn lemma_pow27_monotonic(i: nat, j: nat)
    requires
        i <= j,
    ensures
        1 <= pow27(i) <= pow27(j),
    decreases j,
{
    if i < j {
        lemma_pow27_monotonic(i, (j - 1) as nat);
    } else {
        lemma_pow27_is_pow3(i);
        lemma_pow3_positive(3 * i);
    }
}

/// `27^i` is `3^(3i)`.
pub proof fn lemma_pow27_is_pow3(i: nat)
    ensures
        pow27(i) == pow3(3 * i),
    decreases i,
{
    if i > 0 {
        lemma_pow27_is_pow3((i - 1) as nat);
        let j = (3 * (i - 1)) as nat;
        assert(pow3(3 * i) == 3 * pow3(j + 2));
        assert(pow3(j + 2) == 3 * pow3(j + 1));
        assert(pow3(j + 1) == 3 * pow3(j));
    }
}

/// The value of `2^14`.
proof fn lemma_pow2_14()
    ensures
        pow2(14) == 16384,
{
    assert(pow2(7) == 128) by {
        reveal_with_fuel(pow2, 8);
    }
    assert(pow2(14) == 16384) by {
        reveal_with_fuel(pow2, 8);
    }
}

/// The values of `27^13` and `27^14`.
proof fn lemma_pow27_14()
    ensures
        pow27(13) == 4052555153018976267,
        pow27(14) == 109418989131512359209,
{
    assert(pow27(7) == 10460353203) by {
        reveal_with_fuel(pow27, 8);
    }
    assert(pow27(13) == 4052555153018976267) by {
        reveal_with_fuel(pow27, 7);
    }
}

/// The encoder of `m` trytes is less than `2^m`.
pub proof fn lemma_flip_mask_bound(v: int, m: nat)
    ensures
        0 <= flip_mask(v, m) <= pow2(m) - 1,
    decreases m,
{
    if m > 0 {
        lemma_flip_mask_bound(v, (m - 1) as nat);
    }
}

/// A number other than zero has a body of one tryte or more that holds it, while a body
/// one tryte shorter does not.
pub proof fn lemma_body_length(v: int)
    requires
        v != 0,
    ensures
        body_length(v) >= 3,
        body_length(v) % 3 == 0,
        min_trits_of(v) <= body_length(v) < min_trits_of(v) + 3,
        magnitude(v) <= max_value(body_length(v)),
        magnitude(v) > max_value((body_length(v) - 3) as nat),
{
    lemma_min_trits(v);
    let k = min_trits_of(v);
    let l = body_length(v);
    lemma_max_value_monotonic(k, l);
    lemma_max_value_monotonic((l - 3) as nat, (k - 1) as nat);
}

/// The trits that the encoder of `trytes` trytes takes.
fn encoder_trits(trytes: usize) -> (count: usize)
    requires
        trytes <= 14,
    ensures
        count == encoder_length(trytes as nat),
        1 <= count <= 10,
{
    proof {
        lemma_encoder_length_small(trytes as nat);
    }
    let mut power: isize = 1;
    let mut i: usize = 0;
    while i < trytes
        invariant
            i <= trytes <= 14,
            power == pow2(i as nat),
            1 <= power <= 16384,
        decreases trytes - i,
    {
        proof {
            lemma_pow2_14();
            lemma_pow2_monotonic((i + 1) as nat, 14);
        }
        power = power * 2;
        i += 1;
    }
    min_trits(power - 1)
}

/// The length of the encoding of `input`.
pub fn encoded_length(input: isize) -> (length: usize)
    ensures
        length == encoded_len(input as int),
        4 <= length <= 52,
{
    if input == 0 {
        4
    } else {
        let length = round_third(min_trits(input));
        let count = encoder_trits(length / 3);
        length + count
    }
}

/// Writes the encoding of `input` over `out`.
pub fn encode(input: isize, out: &mut [Trit])
    requires
        old(out)@.len() == encoded_len(input as int),
    ensures
        final(out)@ == encoding(input as int),
        final(out)@.len() == old(out)@.len(),
{
    proof {
        reveal(encoding);
    }
    if input == 0 {
        out[0] = 1;
        out[1] = 0;
        out[2] = 0;
        out[3] = -1;
        assert(out@ =~= zero_word());
    } else {
        let ghost v = input as int;
        let length = round_third(min_trits(input));
        let trytes = length / 3;
        proof {
            lemma_body_length(v);
        }
        let (digits, encoder) = out.split_at_mut(length);
        int2trits(input, digits);
        proof {
            lemma_balanced_valid(v, length as nat);
        }
        let mut mask: isize = 0;
        let mut bit: isize = 1;
        let mut i: usize = 0;
        while i < trytes
            invariant
                i <= trytes <= 14,
                length == 3 * trytes,
                length == body_length(v),
                digits@.len() == length,
                valid_trits(balanced(v, length as nat)),
                forall|j: int| 0 <= j < 3 * i ==> digits@[j] == body(v)[j],
                forall|j: int| 3 * i <= j < length ==> digits@[j] == balanced(v, length as nat)[j],
                mask == flip_mask(v, i as nat),
                bit == pow2(i as nat),
                1 <= bit <= 16384,
                0 <= mask < bit,
            decreases trytes - i,
        {
            proof {
                lemma_pow2_14();
                lemma_pow2_monotonic((i + 1) as nat, 14);
                lemma_flip_mask_bound(v, (i + 1) as nat);
                assert(is_trit(balanced(v, length as nat)[3 * i]));
                assert(is_trit(balanced(v, length as nat)[3 * i + 1]));
                assert(is_trit(balanced(v, length as nat)[3 * i + 2]));
            }
            let value: i32 = digits[3 * i] as i32 + 3 * (digits[3 * i + 1] as i32) + 9 * (digits[3
                * i + 2] as i32);
            assert(value == tryte_value(balanced(v, length as nat), i as int));
            let flip = if i + 1 < trytes {
                value > 0
            } else {
                value < 0
            };
            assert(flip == is_flipped(v, i as int));
            if flip {
                mask = mask + bit;
                digits[3 * i] = negated(digits[3 * i]);
                digits[3 * i + 1] = negated(digits[3 * i + 1]);
                digits[3 * i + 2] = negated(digits[3 * i + 2]);
            }
            assert forall|j: int| 0 <= j < 3 * (i + 1) implies digits@[j] == body(v)[j] by {
                if j >= 3 * i {
                    assert(j / 3 == i);
                }
            }
            bit = bit * 2;
            i += 1;
        }
        assert(digits@ =~= body(v));
        proof {
            lemma_flip_mask_bound(v, trytes as nat);
            lemma_min_trits(pow2(trytes as nat) - 1);
        }
        int2trits(mask, encoder);
        assert(out@ =~= encoding(v));
    }
}

/// A positive tryte found from tryte `i` on is not before `i`, and no tryte between is
/// positive.
pub proof fn lemma_first_positive(s: Seq<Trit>, i: nat)
    ensures
        match first_positive(s, i) {
            Some(last) => {
                &&& i <= last
                &&& 3 * last + 3 <= s.len()
                &&& tryte_value(s, last as int) > 0
                &&& forall|j: int| i <= j < last ==> tryte_value(s, j) <= 0
            },
            None => true,
        },
    decreases s.len() - 3 * i,
{
    if 3 * i + 3 <= s.len() && tryte_value(s, i as int) <= 0 {
        lemma_first_positive(s, i + 1);
    }
}

/// The signed trytes of trits sum to less than half the next power of 27.
pub proof fn lemma_unflipped_sum_bound(s: Seq<Trit>, e: int, m: nat)
    requires
        valid_window(s, 0, 3 * m),
    ensures
        2 * magnitude(unflipped_sum(s, e, m)) + 1 <= pow27(m),
    decreases m,
{
    if m > 0 {
        let j = (m - 1) as nat;
        assert(valid_window(s, 0, 3 * j));
        lemma_unflipped_sum_bound(s, e, j);
        let k = 3 * j as int;
        assert(is_trit(s[k]) && is_trit(s[k + 1]) && is_trit(s[k + 2]));
        let x = signed_tryte(s, e, j);
        let p = pow27(j);
        lemma_pow27_monotonic(0, j);
        assert(-13 * p <= p * x <= 13 * p) by (nonlinear_arith)
            requires
                -13 <= x <= 13,
                p >= 1,
        ;
    }
}

/// Where the last tryte is not zero, the sum is at least half its power of 27.
pub proof fn lemma_unflipped_sum_large(s: Seq<Trit>, e: int, last: nat)
    requires
        valid_window(s, 0, 3 * last + 3),
        tryte_value(s, last as int) != 0,
    ensures
        2 * magnitude(unflipped_sum(s, e, last + 1)) >= pow27(last) + 1,
{
    assert(valid_window(s, 0, 3 * last));
    lemma_unflipped_sum_bound(s, e, last);
    let x = signed_tryte(s, e, last);
    let p = pow27(last);
    lemma_pow27_monotonic(0, last);
    assert(p * x >= p || p * x <= -p) by (nonlinear_arith)
        requires
            x != 0,
            p >= 1,
    ;
}

/// The encoder of at most fourteen trytes takes at most ten trits.
proof fn lemma_encoder_length_small(trytes: nat)
    requires
        trytes <= 14,
    ensures
        1 <= encoder_length(trytes) <= 10,
        max_value(10) == 29524,
{
    assert(max_value(10) == 29524) by {
        reveal_with_fuel(max_value, 11);
    }
    lemma_pow2_14();
    lemma_pow2_monotonic(trytes, 14);
    lemma_pow2_positive(trytes);
    lemma_min_trits_least(pow2(trytes) - 1, 10);
    lemma_min_trits(pow2(trytes) - 1);
}

/// The index after the first tryte of `trits` with a positive value, if it is among the
/// first fourteen and all trits up to there are trits.
fn end(trits: &[Trit]) -> (r: Option<usize>)
    ensures
        match r {
            Some(start) => {
                &&& start % 3 == 0
                &&& 3 <= start <= 42
                &&& start <= trits@.len()
                &&& first_positive(trits@, 0) == Some((start / 3 - 1) as nat)
                &&& valid_window(trits@, 0, start as nat)
            },
            None => match first_positive(trits@, 0) {
                Some(last) => last >= 14 || !valid_window(trits@, 0, 3 * last + 3),
                None => true,
            },
        },
{
    let n = trits.len();
    let mut i: usize = 0;
    while i < 14
        invariant
            i <= 14,
            n == trits@.len(),
            first_positive(trits@, 0) == first_positive(trits@, i as nat),
            valid_window(trits@, 0, (3 * i) as nat),
        decreases 14 - i,
    {
        proof {
            lemma_first_positive(trits@, i as nat);
        }
        if n < 3 || 3 * i > n - 3 {
            return None;
        }
        let a = trits[3 * i];
        let b = trits[3 * i + 1];
        let c = trits[3 * i + 2];
        if a < -1 || a > 1 || b < -1 || b > 1 || c < -1 || c > 1 {
            proof {
                if let Some(last) = first_positive(trits@, 0) {
                    if valid_window(trits@, 0, 3 * last + 3) {
                        assert(i <= last);
                        assert(is_trit(trits@[3 * i]));
                        assert(is_trit(trits@[3 * i + 1]));
                        assert(is_trit(trits@[3 * i + 2]));
                    }
                }
            }
            return None;
        }
        let value: i32 = a as i32 + 3 * (b as i32) + 9 * (c as i32);
        assert(value == tryte_value(trits@, i as int));
        if value > 0 {
            return Some(3 * i + 3);
        }
        i += 1;
    }
    proof {
        lemma_first_positive(trits@, 14);
    }
    None
}

/// Whether the `count` elements of `trits` from `from` on are trits.
fn all_trits(trits: &[Trit], from: usize, count: usize) -> (r: bool)
    requires
        from + count <= trits@.len(),
    ensures
        r == valid_window(trits@, from as int, count as nat),
{
    let n = trits.len();
    let mut i: usize = 0;
    while i < count
        invariant
            i <= count,
            n == trits@.len(),
            from + count <= n,
            valid_window(trits@, from as int, i as nat),
        decreases count - i,
    {
        let t = trits[from + i];
        if t < -1 || t > 1 {
            assert(!is_trit(trits@[from + i]));
            return false;
        }
        i += 1;
    }
    true
}

/// Reads the number at the start of `input`: the number and the count of trits it took.
/// `None` where `input` does not start with an encoding, or the number is too large.
pub fn decode_checked(input: &[Trit]) -> (r: Option<(isize, usize)>)
    ensures
        match r {
            Some((value, length)) => decoding(input@) == Some((value as int, length as nat)) && 4
                <= length <= input@.len(),
            None => match decoding(input@) {
                Some((value, _)) => !fits_isize(value),
                None => true,
            },
        },
{
    let ghost s = input@;
    proof {
        reveal(decoding);
    }
    if input.len() < 4 {
        return None;
    }
    if input[0] == 1 && input[1] == 0 && input[2] == 0 && input[3] == -1 {
        assert(s.subrange(0, 4) =~= zero_word());
        return Some((0, 4));
    }
    assert(s.subrange(0, 4) != zero_word()) by {
        let w = s.subrange(0, 4);
        assert(w[0] == s[0] && w[1] == s[1] && w[2] == s[2] && w[3] == s[3]);
    }
    let start = match end(input) {
        Some(start) => start,
        None => {
            proof {
                if let Some(last) = first_positive(s, 0) {
                    let count = encoder_length(last + 1);
                    if 3 * last + 3 + count <= s.len() && valid_window(
                        s,
                        0,
                        (3 * last + 3 + count) as nat,
                    ) {
                        assert(valid_window(s, 0, 3 * last + 3));
                        lemma_first_positive(s, 0);
                        lemma_unflipped_sum_large(
                            s,
                            window_value(s, (3 * last + 3) as int, count),
                            last,
                        );
                        lemma_pow27_14();
                        lemma_pow27_monotonic(14, last);
                    }
                }
            }
            return None;
        },
    };
    let trytes = start / 3;
    let ghost last = (trytes - 1) as nat;
    let count = encoder_trits(trytes);
    proof {
        lemma_encoder_length_small(trytes as nat);
    }
    if count > input.len() - start {
        return None;
    }
    if !all_trits(input, start, count) {
        assert(!valid_window(s, 0, (start + count) as nat));
        return None;
    }
    assert(valid_window(s, 0, (start + count) as nat));
    let window = vstd::slice::slice_subrange(input, start, start + count);
    proof {
        assert(window@ =~= s.subrange(start as int, start + count));
        assert(window@.subrange(0, count as int) =~= s.subrange(start as int, start + count));
        lemma_window_value_same(window@, 0, s, start as int, count as nat);
        lemma_window_value_bound(s, start as int, count as nat);
        lemma_max_value_monotonic(count as nat, 10);
    }
    let encoder = trits2int(window);
    let ghost e = window_value(s, start as int, count as nat);
    let mut cur: i128 = encoder as i128;
    let mut power: i128 = 1;
    let mut acc: i128 = 0;
    let mut i: usize = 0;
    while i < trytes
        invariant
            i <= trytes <= 14,
            start == 3 * trytes,
            start <= s.len(),
            s == input@,
            valid_window(s, 0, start as nat),
            cur == halved(e, i as nat),
            -29524 <= cur <= 29524,
            power == pow27(i as nat),
            1 <= power <= 109418989131512359209,
            acc == unflipped_sum(s, e, i as nat),
            2 * magnitude(acc as int) + 1 <= power,
        decreases trytes - i,
    {
        proof {
            lemma_pow27_14();
            lemma_pow27_monotonic((i + 1) as nat, 14);
            assert(valid_window(s, 0, (3 * (i + 1)) as nat));
            lemma_unflipped_sum_bound(s, e, (i + 1) as nat);
            assert(is_trit(s[3 * i]) && is_trit(s[3 * i + 1]) && is_trit(s[3 * i + 2]));
        }
        let value: i128 = input[3 * i] as i128 + 3 * (input[3 * i + 1] as i128) + 9 * (input[3
            * i + 2] as i128);
        let half: i128 = if cur >= 0 {
            cur / 2
        } else {
            -((1 - cur) / 2)
        };
        let set = cur - 2 * half == 1;
        assert(half == cur as int / 2);
        assert(set == encoder_bit(e, i as nat));
        let signed = if set {
            -value
        } else {
            value
        };
        assert(signed == signed_tryte(s, e, i as nat));
        assert(-13 * power <= power * signed <= 13 * power) by (nonlinear_arith)
            requires
                -13 <= signed <= 13,
                power >= 1,
        ;
        acc = acc + power * signed;
        power = power * 27;
        cur = half;
        i += 1;
    }
    assert(first_positive(s, 0) == Some(last));
    assert(decoding(s) == Some((acc as int, (start + count) as nat)));
    if acc < isize::MIN as i128 || acc > isize::MAX as i128 {
        return None;
    }
    Some((acc as isize, start + count))
}

/// Reads the number at the start of `input`: the number and the count of trits it took.
pub fn decode(input: &[Trit]) -> (r: (isize, usize))
    requires
        decoding(input@) matches Some((value, _)) && fits_isize(value),
    ensures
        decoding(input@) == Some((r.0 as int, r.1 as nat)),
        4 <= r.1 <= input@.len(),
{
    match decode_checked(input) {
        Some(r) => r,
        None => (0, 0),
    }
}

/// One tryte more adds its value times its power of 27 to a window.
pub proof fn lemma_window_tryte(s: Seq<Trit>, i: nat)
    ensures
        window_value(s, 0, 3 * (i + 1)) == window_value(s, 0, 3 * i) + pow27(i) * tryte_value(
            s,
            i as int,
        ),
{
    let n = 3 * i;
    let k = n as int;
    let p = pow3(n);
    lemma_pow27_is_pow3(i);
    assert(window_value(s, 0, n + 3) == window_value(s, 0, n + 2) + pow3(n + 2) * s[k + 2]);
    assert(window_value(s, 0, n + 2) == window_value(s, 0, n + 1) + pow3(n + 1) * s[k + 1]);
    assert(window_value(s, 0, n + 1) == window_value(s, 0, n) + pow3(n) * s[k]);
    assert(pow3(n + 1) == 3 * p);
    assert(pow3(n + 2) == 9 * p);
    let a = s[k] as int;
    let b = s[k + 1] as int;
    let c = s[k + 2] as int;
    assert(p * a + (3 * p) * b + (9 * p) * c == p * (a + 3 * b + 9 * c)) by (nonlinear_arith);
}

/// Where the signed trytes of `s` are the trytes of `d`, their sum is the value of `d`.
pub proof fn lemma_unflipped_is_value(s: Seq<Trit>, e: int, d: Seq<Trit>, m: nat)
    requires
        forall|i: nat| i < m ==> #[trigger] signed_tryte(s, e, i) == tryte_value(d, i as int),
    ensures
        unflipped_sum(s, e, m) == window_value(d, 0, 3 * m),
    decreases m,
{
    if m > 0 {
        let j = (m - 1) as nat;
        lemma_unflipped_is_value(s, e, d, j);
        lemma_window_tryte(d, j);
        assert(signed_tryte(s, e, j) == tryte_value(d, j as int));
    }
}

/// Where `last` is the first tryte with a positive value, a search from any tryte up to
/// it finds it.
pub proof fn lemma_first_positive_found(s: Seq<Trit>, last: nat, i: nat)
    requires
        3 * last + 3 <= s.len(),
        i <= last,
        forall|j: int| 0 <= j < last ==> tryte_value(s, j) <= 0,
        tryte_value(s, last as int) > 0,
    ensures
        first_positive(s, i) == Some(last),
    decreases last - i,
{
    if i < last {
        lemma_first_positive_found(s, last, i + 1);
    }
}

/// The encoder of the trytes `i` to `m`, with tryte `i` at bit 0.
pub open spec fn mask_from(v: int, i: nat, m: nat) -> int
    decreases m,
{
    if m <= i {
        0
    } else {
        mask_from(v, i, (m - 1) as nat) + if is_flipped(v, m - 1) {
            pow2((m - 1 - i) as nat)
        } else {
            0
        }
    }
}

/// The encoder from tryte `i` on is the bit of tryte `i` and, doubled, the encoder
/// from the next tryte on.
proof fn lemma_mask_from_step(v: int, i: nat, m: nat)
    requires
        i < m,
    ensures
        mask_from(v, i, m) == mask_from(v, i + 1, m) * 2 + if is_flipped(v, i as int) {
            1int
        } else {
            0int
        },
    decreases m,
{
    if m > i + 1 {
        lemma_mask_from_step(v, i, (m - 1) as nat);
        assert(pow2((m - 1 - i) as nat) == 2 * pow2((m - 1 - (i + 1)) as nat));
    } else {
        assert(mask_from(v, i, i) == 0);
        assert(mask_from(v, i + 1, m) == 0);
        assert(pow2(0) == 1);
    }
}

/// The encoder from the first tryte on is the encoder.
proof fn lemma_mask_from_zero(v: int, m: nat)
    ensures
        mask_from(v, 0, m) == flip_mask(v, m),
    decreases m,
{
    if m > 0 {
        lemma_mask_from_zero(v, (m - 1) as nat);
    }
}

/// The encoder halved `i` times is the encoder from tryte `i` on.
proof fn lemma_halved_mask(v: int, m: nat, i: nat)
    requires
        i <= m,
    ensures
        halved(flip_mask(v, m), i) == mask_from(v, i, m),
    decreases i,
{
    if i == 0 {
        lemma_mask_from_zero(v, m);
    } else {
        lemma_halved_mask(v, m, (i - 1) as nat);
        lemma_mask_from_step(v, (i - 1) as nat, m);
    }
}

/// Bit `i` of the encoder of `v` tells whether tryte `i` is flipped.
pub proof fn lemma_encoder_bits(v: int, m: nat, i: nat)
    requires
        i < m,
    ensures
        encoder_bit(flip_mask(v, m), i) == is_flipped(v, i as int),
{
    lemma_halved_mask(v, m, i);
    lemma_mask_from_step(v, i, m);
}

/// The last tryte of the digits of a number other than zero is not zero.
pub proof fn lemma_last_tryte(v: int)
    requires
        v != 0,
    ensures
        tryte_value(balanced(v, body_length(v)), body_length(v) / 3 - 1) != 0,
{
    let l = body_length(v);
    let d = balanced(v, l);
    let last = (l / 3 - 1) as nat;
    lemma_body_length(v);
    lemma_balanced_value(v, l);
    lemma_balanced_valid(v, l);
    lemma_window_tryte(d, last);
    lemma_window_value_bound(d, 0, 3 * last);
    if tryte_value(d, last as int) == 0 {
        assert(pow27(last) * 0 == 0) by (nonlinear_arith);
        assert(window_value(d, 0, l) == window_value(d, 0, 3 * last));
    }
}

/// The trytes of the body of `v` are the trytes of its digits, the flipped ones negated.
pub proof fn lemma_body_tryte(v: int, i: nat)
    requires
        v != 0,
        3 * i + 3 <= body_length(v),
    ensures
        tryte_value(body(v), i as int) == if is_flipped(v, i as int) {
            -tryte_value(balanced(v, body_length(v)), i as int)
        } else {
            tryte_value(balanced(v, body_length(v)), i as int)
        },
        is_trit(body(v)[3 * i as int]),
        is_trit(body(v)[3 * i as int + 1]),
        is_trit(body(v)[3 * i as int + 2]),
{
    let l = body_length(v);
    let d = balanced(v, l);
    lemma_balanced_valid(v, l);
    let k = 3 * i as int;
    assert(k / 3 == i && (k + 1) / 3 == i && (k + 2) / 3 == i);
    assert(is_trit(d[k]) && is_trit(d[k + 1]) && is_trit(d[k + 2]));
}

/// Every number is read back from its encoding, with the length of the encoding,
/// whatever follows the encoding.
pub proof fn theorem_round_trip(v: int, rest: Seq<Trit>)
    ensures
        encoding(v).len() == encoded_len(v),
        valid_trits(encoding(v)),
        decoding(encoding(v) + rest) == Some((v, encoded_len(v))),
{
    reveal(encoding);
    reveal(decoding);
    let s = encoding(v) + rest;
    if v == 0 {
        assert(s.subrange(0, 4) =~= zero_word());
    } else {
        let l = body_length(v);
        let m = l / 3;
        let last = (m - 1) as nat;
        let d = balanced(v, l);
        let count = encoder_length(m);
        let mask = flip_mask(v, m);
        let enc = balanced(mask, count);
        lemma_body_length(v);
        lemma_balanced_valid(v, l);
        lemma_balanced_valid(mask, count);
        lemma_balanced_value(v, l);
        lemma_flip_mask_bound(v, m);
        lemma_pow2_positive(m);
        lemma_min_trits(pow2(m) - 1);
        lemma_balanced_value(mask, count);
        lemma_last_tryte(v);
        assert forall|i: nat| i < m implies tryte_value(s, i as int) == #[trigger] tryte_value(
            body(v),
            i as int,
        ) && (i < last ==> tryte_value(s, i as int) <= 0) && (i == last ==> tryte_value(
            s,
            i as int,
        ) > 0) by {
            lemma_body_tryte(v, i);
            let k = 3 * i as int;
            assert(s[k] == body(v)[k] && s[k + 1] == body(v)[k + 1] && s[k + 2] == body(v)[k
                + 2]);
        }
        assert(valid_trits(encoding(v))) by {
            assert forall|j: int| 0 <= j < encoding(v).len() implies is_trit(
                #[trigger] encoding(v)[j],
            ) by {
                if j < l {
                    lemma_body_tryte(v, (j / 3) as nat);
                    assert(encoding(v)[j] == body(v)[j]);
                } else {
                    assert(encoding(v)[j] == enc[j - l]);
                }
            }
        }
        assert(s.subrange(0, 4) != zero_word()) by {
            let w = s.subrange(0, 4);
            assert(w[0] == s[0] && w[1] == s[1] && w[2] == s[2] && w[3] == s[3]);
            if last == 0 {
                assert(pow2(1) == 2) by {
                    reveal_with_fuel(pow2, 2);
                }
                assert(max_value(1) == 1) by {
                    reveal_with_fuel(max_value, 2);
                }
                lemma_min_trits_least(1, 1);
                assert(count == 1);
                assert(s[3] == enc[0]);
            } else {
                assert(tryte_value(s, 0) <= 0);
            }
        }
        assert(first_positive(s, 0) == Some(last)) by {
            assert forall|j: int| 0 <= j < last implies tryte_value(s, j) <= 0 by {
                assert(tryte_value(s, j) == tryte_value(body(v), (j as nat) as int));
            }
            assert(tryte_value(s, last as int) == tryte_value(body(v), last as int));
            lemma_first_positive_found(s, last, 0);
        }
        assert(valid_window(s, 0, (l + count) as nat)) by {
            assert forall|j: int| 0 <= j < l + count implies is_trit(#[trigger] s[j]) by {
                assert(s[j] == encoding(v)[j]);
            }
        }
        let e = window_value(s, l as int, count);
        assert(e == mask) by {
            assert(s.subrange(l as int, (l + count) as int) =~= enc.subrange(0, count as int));
            lemma_window_value_same(s, l as int, enc, 0, count);
        }
        assert forall|i: nat| i < m implies #[trigger] signed_tryte(s, e, i) == tryte_value(
            d,
            i as int,
        ) by {
            lemma_encoder_bits(v, m, i);
            lemma_body_tryte(v, i);
            assert(tryte_value(s, i as int) == tryte_value(body(v), i as int));
        }
        lemma_unflipped_is_value(s, e, d, m);
        assert(3 * (last + 1) == l);
    }
}

} // verus!
