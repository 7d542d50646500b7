//! Balanced-ternary numbers held as slices of trits, least significant trit first.

use vstd::prelude::*;

verus! {

/// A balanced-ternary digit: -1, 0 or 1.
pub type Trit = i8;

/// Trits in a tryte.
pub const TRITS_PER_TRYTE: usize = 3;

/// Trits in a hash, a root and an address.
pub const HASH_LENGTH: usize = 243;

/// Trits in the state of a sponge.
pub const STATE_LENGTH: usize = 729;

/// Whether `t` is -1, 0 or 1.
pub open spec fn is_trit(t: Trit) -> bool {
    -1 <= t <= 1
}

/// Every element of `s` is a trit.
pub open spec fn valid_trits(s: Seq<Trit>) -> bool {
    forall|i: int| 0 <= i < s.len() ==> is_trit(#[trigger] s[i])
}

/// `2^n`.
pub open spec fn pow2(n: nat) -> int
    decreases n,
{
    if n == 0 {
        1
    } else {
        2 * pow2((n - 1) as nat)
    }
}

/// `e` halved `i` times, rounding down.
pub open spec fn halved(e: int, i: nat) -> int
    decreases i,
{
    if i == 0 {
        e
    } else {
        halved(e, (i - 1) as nat) / 2
    }
}

/// `3^n`.
pub open spec fn pow3(n: nat) -> int
    decreases n,
{
    if n == 0 {
        1
    } else {
        3 * pow3((n - 1) as nat)
    }
}

/// The number that the `n` trits of `s` from index `from` on stand for:
/// the sum of `3^i * s[from + i]` over `i < n`.
pub open spec fn window_value(s: Seq<Trit>, from: int, n: nat) -> int
    decreases n,
{
    if n == 0 {
        0
    } else {
        window_value(s, from, (n - 1) as nat) + pow3((n - 1) as nat) * s[from + n - 1]
    }
}

/// The `n` elements of `s` from index `from` on are trits.
pub open spec fn valid_window(s: Seq<Trit>, from: int, n: nat) -> bool {
    forall|i: int| from <= i < from + n ==> is_trit(#[trigger] s[i])
}

/// The number that `s` stands for.
pub open spec fn trits_value(s: Seq<Trit>) -> int {
    window_value(s, 0, s.len())
}

/// The largest number that `k` trits can hold, `(3^k - 1) / 2`.
pub open spec fn max_value(k: nat) -> int
    decreases k,
{
    if k == 0 {
        0
    } else {
        1 + 3 * max_value((k - 1) as nat)
    }
}

/// `|v|`.
pub open spec fn magnitude(v: int) -> int {
    if v < 0 {
        -v
    } else {
        v
    }
}

/// The least `j >= k` with `n <= max_value(j)`.
pub open spec fn min_trits_from(n: int, k: nat) -> nat
    decreases
            (if n > max_value(k) {
                n - max_value(k)
            } else {
                0
            }),
{
    if n <= max_value(k) {
        k
    } else {
        proof {
            lemma_max_value_closed(k);
        }
        min_trits_from(n, k + 1)
    }
}

/// How many trits `v` takes: the least `k >= 1` with `|v| <= max_value(k)`.
pub open spec fn min_trits_of(v: int) -> nat {
    min_trits_from(magnitude(v), 1)
}

/// The least multiple of 3 that is at least `n`.
pub open spec fn rounded_third(n: nat) -> nat {
    if n % 3 == 0 {
        n
    } else {
        (n + 3 - n % 3) as nat
    }
}

/// The least significant trit of `v`.
pub open spec fn low_trit(v: int) -> int {
    (v + 1) % 3 - 1
}

/// `v` without its least significant trit: `v == 3 * drop_trit(v) + low_trit(v)`.
pub open spec fn drop_trit(v: int) -> int {
    (v + 1) / 3
}

/// `v` without its `i` least significant trits.
pub open spec fn shifted(v: int, i: nat) -> int
    decreases i,
{
    if i == 0 {
        v
    } else {
        drop_trit(shifted(v, (i - 1) as nat))
    }
}

/// The `n` least significant trits of `v`.
pub open spec fn balanced(v: int, n: nat) -> Seq<Trit> {
    Seq::new(n, |i: int| low_trit(shifted(v, i as nat)) as Trit)
}

/// The sum of two trits modulo 3, as a trit.
pub open spec fn trit_sum_of(a: Trit, b: Trit) -> Trit {
    low_trit(a + b) as Trit
}

/// The difference of two trits modulo 3, as a trit.
pub open spec fn trit_diff_of(a: Trit, b: Trit) -> Trit {
    low_trit(a - b) as Trit
}

/// The opposite trit; what is no trit becomes 0.
pub open spec fn negated_trit(t: Trit) -> Trit {
    if t == 1 {
        -1i8
    } else if t == -1 {
        1i8
    } else {
        0i8
    }
}

/// The number of trits at the start of `s` that are 1.
pub open spec fn leading_ones(s: Seq<Trit>) -> nat
    decreases s.len(),
{
    if s.len() == 0 || s[0] != 1 {
        0
    } else {
        1 + leading_ones(s.drop_first())
    }
}

/// `s` plus one: the ones at its start turn to -1 and the trit after them rises by one.
/// A sequence of ones alone wraps round to its negation.
pub open spec fn incremented(s: Seq<Trit>) -> Seq<Trit> {
    let c = leading_ones(s) as int;
    Seq::new(
        s.len(),
        |i: int|
            if i < c {
                -1i8
            } else if i == c {
                (s[i] + 1) as Trit
            } else {
                s[i]
            },
    )
}

/// `s` after `k` increments.
pub open spec fn incremented_by(s: Seq<Trit>, k: nat) -> Seq<Trit>
    decreases k,
{
    if k == 0 {
        s
    } else {
        incremented(incremented_by(s, (k - 1) as nat))
    }
}

/// Powers of 3 are positive.
pub proof fn lemma_pow3_positive(n: nat)
    ensures
        pow3(n) >= 1,
    decreases n,
{
    if n > 0 {
        lemma_pow3_positive((n - 1) as nat);
    }
}

/// Powers of 2 are positive.
pub proof fn lemma_pow2_positive(n: nat)
    ensures
        pow2(n) >= 1,
    decreases n,
{
    if n > 0 {
        lemma_pow2_positive((n - 1) as nat);
    }
}

/// Powers of 2 grow.
pub proof fn lemma_pow2_monotonic(i: nat, j: nat)
    requires
        i <= j,
    ensures
        pow2(i) <= pow2(j),
    decreases j,
{
    if i < j {
        lemma_pow2_monotonic(i, (j - 1) as nat);
        lemma_pow2_positive((j - 1) as nat);
    }
}

/// `max_value(k)` is `(3^k - 1) / 2`.
pub proof fn lemma_max_value_closed(k: nat)
    ensures
        2 * max_value(k) + 1 == pow3(k),
        max_value(k) >= 0,
    decreases k,
{
    if k > 0 {
        lemma_max_value_closed((k - 1) as nat);
    }
}

/// More trits hold larger numbers.
pub proof fn lemma_max_value_monotonic(j: nat, k: nat)
    requires
        j <= k,
    ensures
        max_value(j) <= max_value(k),
    decreases k,
{
    if j < k {
        lemma_max_value_monotonic(j, (k - 1) as nat);
        lemma_max_value_closed((k - 1) as nat);
    }
}

/// What `min_trits_from` returns is the least fitting count from `k` on.
pub proof fn lemma_min_trits_from(n: int, k: nat)
    requires
        k >= 1,
        n >= 0,
    ensures
        min_trits_from(n, k) >= k,
        n <= max_value(min_trits_from(n, k)),
        forall|j: nat| k <= j < min_trits_from(n, k) ==> n > max_value(j),
    decreases
            (if n > max_value(k) {
                n - max_value(k)
            } else {
                0
            }),
{
    if n > max_value(k) {
        lemma_max_value_closed(k);
        lemma_min_trits_from(n, k + 1);
        assert forall|j: nat| k <= j < min_trits_from(n, k) implies n > max_value(j) by {
            if j > k {
                assert(k + 1 <= j < min_trits_from(n, k + 1));
            }
        }
    }
}

/// `min_trits_of(v)` trits hold `v`, and fewer do not.
pub proof fn lemma_min_trits(v: int)
    ensures
        min_trits_of(v) >= 1,
        magnitude(v) <= max_value(min_trits_of(v)),
        forall|j: nat| 1 <= j < min_trits_of(v) ==> magnitude(v) > max_value(j),
        v != 0 ==> magnitude(v) > max_value((min_trits_of(v) - 1) as nat),
{
    lemma_min_trits_from(magnitude(v), 1);
    let k = min_trits_of(v);
    if v != 0 && k > 1 {
        let j = (k - 1) as nat;
        assert(1 <= j && j < k);
    }
}

/// Any count that holds `v` is at least `min_trits_of(v)`.
pub proof fn lemma_min_trits_least(v: int, k: nat)
    requires
        k >= 1,
        magnitude(v) <= max_value(k),
    ensures
        min_trits_of(v) <= k,
{
    lemma_min_trits(v);
    if min_trits_of(v) > k {
        assert(1 <= k && k < min_trits_of(v));
    }
}

/// A number is three times what is left of it, plus its least significant trit.
pub proof fn lemma_low_trit(v: int)
    ensures
        -1 <= low_trit(v) <= 1,
        v == 3 * drop_trit(v) + low_trit(v),
{
}

/// The trits of a number are trits.
pub proof fn lemma_balanced_valid(v: int, n: nat)
    ensures
        valid_trits(balanced(v, n)),
        balanced(v, n).len() == n,
{
    assert forall|i: int| 0 <= i < n implies is_trit(#[trigger] balanced(v, n)[i]) by {
        lemma_low_trit(shifted(v, i as nat));
    }
}

/// A window's value depends on the trits inside it alone.
pub proof fn lemma_window_value_same(a: Seq<Trit>, fa: int, b: Seq<Trit>, fb: int, n: nat)
    requires
        0 <= fa,
        fa + n <= a.len(),
        0 <= fb,
        fb + n <= b.len(),
        a.subrange(fa, fa + n) == b.subrange(fb, fb + n),
    ensures
        window_value(a, fa, n) == window_value(b, fb, n),
    decreases n,
{
    if n > 0 {
        let m = (n - 1) as nat;
        let wa = a.subrange(fa, fa + n);
        let wb = b.subrange(fb, fb + n);
        assert(a.subrange(fa, fa + m) =~= wa.subrange(0, m as int));
        assert(b.subrange(fb, fb + m) =~= wb.subrange(0, m as int));
        lemma_window_value_same(a, fa, b, fb, m);
        assert(a[fa + m] == wa[m as int]);
        assert(b[fb + m] == wb[m as int]);
    }
}

/// A window of `n` trits holds a number of magnitude at most `max_value(n)`.
pub proof fn lemma_window_value_bound(s: Seq<Trit>, from: int, n: nat)
    requires
        valid_window(s, from, n),
    ensures
        -max_value(n) <= window_value(s, from, n) <= max_value(n),
    decreases n,
{
    if n > 0 {
        let m = (n - 1) as nat;
        lemma_window_value_bound(s, from, m);
        lemma_max_value_closed(m);
        lemma_max_value_closed(n);
        let t = s[from + m];
        assert(is_trit(t));
        let p = pow3(m);
        assert(p * t == if t == 1 {
            p
        } else if t == 0 {
            0
        } else {
            -p
        }) by (nonlinear_arith)
            requires
                -1 <= t <= 1,
        ;
    }
}

/// A window is its first trit plus three times the rest.
pub proof fn lemma_window_value_front(s: Seq<Trit>, from: int, n: nat)
    requires
        n >= 1,
    ensures
        window_value(s, from, n) == s[from] + 3 * window_value(s, from + 1, (n - 1) as nat),
    decreases n,
{
    if n == 1 {
        assert(window_value(s, from, 0) == 0);
        assert(window_value(s, from + 1, 0) == 0);
        assert(pow3(0) == 1);
    } else {
        let m = (n - 1) as nat;
        lemma_window_value_front(s, from, m);
        let t = s[from + m];
        let p = pow3((m - 1) as nat);
        assert(pow3(m) == 3 * p);
        assert((3 * p) * t == 3 * (p * t)) by (nonlinear_arith);
        assert(from + 1 + (m - 1) == from + m);
    }
}

/// The first `i` trits of `v` and what is left of `v` give `v` back.
pub proof fn lemma_balanced_prefix(v: int, n: nat, i: nat)
    requires
        i <= n,
    ensures
        window_value(balanced(v, n), 0, i) + pow3(i) * shifted(v, i) == v,
    decreases i,
{
    if i > 0 {
        let j = (i - 1) as nat;
        lemma_balanced_prefix(v, n, j);
        let w = shifted(v, j);
        lemma_low_trit(w);
        let t = balanced(v, n)[j as int];
        assert(t == low_trit(w));
        let p = pow3(j);
        assert(p * w == p * t + (3 * p) * drop_trit(w)) by (nonlinear_arith)
            requires
                w == 3 * drop_trit(w) + t,
        ;
    }
}

/// What is left of a number that `n` trits hold, after `i` trits, `n - i` trits hold.
pub proof fn lemma_shifted_bound(v: int, n: nat, i: nat)
    requires
        i <= n,
        magnitude(v) <= max_value(n),
    ensures
        magnitude(shifted(v, i)) <= max_value((n - i) as nat),
    decreases i,
{
    if i > 0 {
        lemma_shifted_bound(v, n, (i - 1) as nat);
    }
}

/// `n` trits that hold `v` stand for `v`.
pub proof fn lemma_balanced_value(v: int, n: nat)
    requires
        magnitude(v) <= max_value(n),
    ensures
        trits_value(balanced(v, n)) == v,
        window_value(balanced(v, n), 0, n) == v,
{
    lemma_balanced_prefix(v, n, n);
    lemma_shifted_bound(v, n, n);
    assert(shifted(v, n) == 0);
    assert(pow3(n) * 0 == 0) by (nonlinear_arith);
}

/// The digits of the negation are the negated digits.
pub proof fn lemma_shifted_negated(v: int, i: nat)
    ensures
        shifted(-v, i) == -shifted(v, i),
        low_trit(shifted(-v, i)) == -low_trit(shifted(v, i)),
    decreases i,
{
    if i > 0 {
        lemma_shifted_negated(v, (i - 1) as nat);
    }
}

/// What is left of a number after its first `i` trits, where the number is the value of
/// a window plus `carry` times the power of 3 after the window: the rest of the window
/// plus the carry, and the trit there is the trit of the window.
pub proof fn lemma_shifted_window_carry(s: Seq<Trit>, from: int, n: nat, carry: int, i: nat)
    requires
        i <= n,
        valid_window(s, from, n),
    ensures
        shifted(window_value(s, from, n) + pow3(n) * carry, i) == window_value(
            s,
            from + i,
            (n - i) as nat,
        ) + pow3((n - i) as nat) * carry,
        i < n ==> low_trit(shifted(window_value(s, from, n) + pow3(n) * carry, i)) == s[from + i],
    decreases i,
{
    if i > 0 {
        let j = (i - 1) as nat;
        lemma_shifted_window_carry(s, from, n, carry, j);
        lemma_window_value_front(s, from + j, (n - j) as nat);
        assert(is_trit(s[from + j]));
        let p = pow3((n - i) as nat);
        assert(pow3((n - j) as nat) == 3 * p);
        assert((3 * p) * carry == 3 * (p * carry)) by (nonlinear_arith);
    }
    if i < n {
        lemma_window_value_front(s, from + i, (n - i) as nat);
        assert(is_trit(s[from + i]));
        let q = pow3((n - i - 1) as nat);
        assert(pow3((n - i) as nat) == 3 * q);
        assert((3 * q) * carry == 3 * (q * carry)) by (nonlinear_arith);
    }
}

/// What is left of a window's value after its first `i` trits is the rest of the window.
pub proof fn lemma_shifted_window(s: Seq<Trit>, from: int, n: nat, i: nat)
    requires
        i <= n,
        valid_window(s, from, n),
    ensures
        shifted(window_value(s, from, n), i) == window_value(s, from + i, (n - i) as nat),
{
    lemma_shifted_window_carry(s, from, n, 0, i);
    assert(pow3(n) * 0 == 0) by (nonlinear_arith);
    assert(pow3((n - i) as nat) * 0 == 0) by (nonlinear_arith);
}

/// Trits whose value differs from `v` by a multiple of the power of 3 after them are
/// the trits of `v`.
pub proof fn lemma_balanced_of_wrapped(s: Seq<Trit>, carry: int)
    requires
        valid_trits(s),
    ensures
        balanced(trits_value(s) + pow3(s.len()) * carry, s.len()) == s,
{
    let n = s.len();
    let v = trits_value(s) + pow3(n) * carry;
    assert forall|i: int| 0 <= i < n implies balanced(v, n)[i] == s[i] by {
        lemma_shifted_window_carry(s, 0, n, carry, i as nat);
    }
    assert(balanced(v, n) =~= s);
}

/// Trits are the digits of the number they stand for.
pub proof fn lemma_balanced_of_value(s: Seq<Trit>)
    requires
        valid_trits(s),
    ensures
        balanced(trits_value(s), s.len()) == s,
{
    lemma_balanced_of_wrapped(s, 0);
    assert(pow3(s.len()) * 0 == 0) by (nonlinear_arith);
}

/// What is left of a number is no larger than the number, and on its side of zero.
pub proof fn lemma_shifted_shrinks(v: int, i: nat)
    ensures
        magnitude(shifted(v, i)) <= magnitude(v),
        v >= 0 ==> shifted(v, i) >= 0,
        v <= 0 ==> shifted(v, i) <= 0,
    decreases i,
{
    if i > 0 {
        lemma_shifted_shrinks(v, (i - 1) as nat);
    }
}

/// Trits plus one are trits, of the same count.
pub proof fn lemma_incremented_valid(s: Seq<Trit>)
    requires
        valid_trits(s),
    ensures
        valid_trits(incremented(s)),
        incremented(s).len() == s.len(),
{
    let c = leading_ones(s) as int;
    lemma_leading_ones_found(s);
    assert forall|i: int| 0 <= i < s.len() implies is_trit(#[trigger] incremented(s)[i]) by {
        assert(is_trit(s[i]));
    }
}

/// The first `m` trits of `s` plus one, against those of `s`: one more, but for the
/// power of 3 that is carried on while all of them are ones.
proof fn lemma_incremented_prefix(s: Seq<Trit>, m: nat)
    requires
        m <= s.len(),
        valid_trits(s),
    ensures
        window_value(incremented(s), 0, m) == window_value(s, 0, m) + 1 - if m <= leading_ones(
            s,
        ) {
            pow3(m)
        } else {
            0
        },
    decreases m,
{
    if m > 0 {
        let j = (m - 1) as nat;
        lemma_incremented_prefix(s, j);
        lemma_leading_ones_found(s);
        let c = leading_ones(s);
        let p = pow3(j);
        let a = incremented(s)[j as int] as int;
        let b = s[j as int] as int;
        if j < c {
            lemma_leading_ones_all(s, j);
            assert(p * a == p * b - 2 * p) by (nonlinear_arith)
                requires
                    a == -1,
                    b == 1,
            ;
        } else if j == c {
            assert(is_trit(s[j as int]));
            assert(p * a == p * b + p) by (nonlinear_arith)
                requires
                    a == b + 1,
            ;
        }
    }
}

/// The leading ones are ones.
proof fn lemma_leading_ones_all(s: Seq<Trit>, j: nat)
    requires
        j < leading_ones(s),
    ensures
        j < s.len(),
        s[j as int] == 1,
    decreases j,
{
    if j > 0 {
        lemma_leading_ones_all(s.drop_first(), (j - 1) as nat);
        assert(s.drop_first()[j - 1] == s[j as int]);
    }
}

/// Trits plus one stand for one more, and wrap round where all of them are ones; they
/// are the trits of the number they stood for, plus one.
pub proof fn theorem_incremented_adds_one(s: Seq<Trit>)
    requires
        valid_trits(s),
    ensures
        trits_value(incremented(s)) == trits_value(s) + 1 - if leading_ones(s) == s.len() {
            pow3(s.len())
        } else {
            0
        },
        incremented(s) == balanced(trits_value(s) + 1, s.len()),
{
    let n = s.len();
    lemma_incremented_prefix(s, n);
    lemma_leading_ones_found(s);
    lemma_incremented_valid(s);
    let r = incremented(s);
    if leading_ones(s) == n {
        lemma_balanced_of_wrapped(r, 1);
        assert(pow3(n) * 1 == pow3(n)) by (nonlinear_arith);
    } else {
        lemma_balanced_of_value(r);
    }
}

/// Trits after `k` increments are the trits of the number they stood for, plus `k`: to
/// increment `k` times is to add `k`.
pub proof fn theorem_incremented_by_adds(s: Seq<Trit>, k: nat)
    requires
        valid_trits(s),
    ensures
        incremented_by(s, k) == balanced(trits_value(s) + k, s.len()),
        valid_trits(incremented_by(s, k)),
    decreases k,
{
    let n = s.len();
    if k == 0 {
        lemma_balanced_of_value(s);
    } else {
        let j = (k - 1) as nat;
        theorem_incremented_by_adds(s, j);
        let before = incremented_by(s, j);
        let after = incremented(before);
        let v = trits_value(s) + j;
        theorem_incremented_adds_one(before);
        lemma_incremented_valid(before);
        lemma_leading_ones_found(before);
        // `before` holds `v` but for a multiple of `3^n`, and `after` one more
        lemma_balanced_prefix(v, n, n);
        let lost = shifted(v, n);
        let wrapped = if leading_ones(before) == n {
            1int
        } else {
            0int
        };
        let p = pow3(n);
        assert(trits_value(after) + p * (wrapped + lost) == v + 1) by (nonlinear_arith)
            requires
                trits_value(after) == trits_value(before) + 1 - p * wrapped,
                trits_value(before) + p * lost == v,
        ;
        lemma_balanced_of_wrapped(after, wrapped + lost);
    }
}

/// The trit after the leading ones, if there is one, is not 1.
pub proof fn lemma_leading_ones_found(s: Seq<Trit>)
    ensures
        leading_ones(s) <= s.len(),
        leading_ones(s) < s.len() ==> s[leading_ones(s) as int] != 1,
    decreases s.len(),
{
    if s.len() > 0 && s[0] == 1 {
        let t = s.drop_first();
        lemma_leading_ones_found(t);
        if leading_ones(t) < t.len() {
            assert(t[leading_ones(t) as int] == s[leading_ones(t) as int + 1]);
        }
    }
}

/// Forty-one trits hold every 64-bit number.
pub proof fn lemma_max_value_41()
    ensures
        max_value(41) == 18236498188585393201,
{
    assert(max_value(8) == 3280) by {
        reveal_with_fuel(max_value, 9);
    }
    assert(max_value(16) == 21523360) by {
        reveal_with_fuel(max_value, 9);
    }
    assert(max_value(24) == 141214768240) by {
        reveal_with_fuel(max_value, 9);
    }
    assert(max_value(32) == 926510094425920) by {
        reveal_with_fuel(max_value, 9);
    }
    assert(max_value(40) == 6078832729528464400) by {
        reveal_with_fuel(max_value, 9);
    }
}

/// If the trits before index `i` are ones and the trit at `i`, if there is one, is not,
/// then `i` ones lead.
pub proof fn lemma_leading_ones(s: Seq<Trit>, i: nat)
    requires
        i <= s.len(),
        forall|j: int| 0 <= j < i ==> s[j] == 1,
        i < s.len() ==> s[i as int] != 1,
    ensures
        leading_ones(s) == i,
    decreases i,
{
    if i > 0 {
        let t = s.drop_first();
        assert forall|j: int| 0 <= j < i - 1 implies t[j] == 1 by {
            assert(t[j] == s[j + 1]);
        }
        lemma_leading_ones(t, (i - 1) as nat);
        assert(s[0] == 1);
    }
}

/// The least multiple of 3 that is at least `n`.
pub fn round_third(n: usize) -> (r: usize)
    requires
        n <= usize::MAX - 2,
    ensures
        r == rounded_third(n as nat),
        r % 3 == 0,
        n <= r < n + 3,
{
    let rem = n % 3;
    if rem == 0 {
        n
    } else {
        n + (3 - rem)
    }
}

/// The number of trits that `input` takes.
pub fn min_trits(input: isize) -> (count: usize)
    ensures
        count == min_trits_of(input as int),
        1 <= count <= 41,
{
    let wide = input as i128;
    let mag: u128 = if wide < 0 {
        (-wide) as u128
    } else {
        wide as u128
    };
    let mut base: u128 = 1;
    let mut count: usize = 1;
    assert(max_value(1) == 1) by {
        reveal_with_fuel(max_value, 2);
    }
    while mag > base
        invariant
            1 <= count <= 41,
            base == max_value(count as nat),
            mag == magnitude(input as int),
            mag <= 0x8000_0000_0000_0000,
            min_trits_from(mag as int, count as nat) == min_trits_of(input as int),
        decreases 41 - count,
    {
        proof {
            lemma_max_value_41();
            lemma_max_value_monotonic(count as nat, 41);
            lemma_max_value_closed(count as nat);
        }
        base = 3 * base + 1;
        count += 1;
    }
    count
}

/// The number that `buf` stands for.
pub fn trits2int(buf: &[Trit]) -> (value: isize)
    requires
        valid_trits(buf@),
        isize::MIN <= trits_value(buf@) <= isize::MAX,
    ensures
        value == trits_value(buf@),
{
    let n = buf.len();
    let mut k = n;
    let mut acc: i128 = 0;
    while k > 0
        invariant
            k <= n,
            n == buf@.len(),
            valid_trits(buf@),
            isize::MIN <= trits_value(buf@) <= isize::MAX,
            acc == window_value(buf@, k as int, (n - k) as nat),
            -0x8000_0000_0000_0000 <= acc <= 0x8000_0000_0000_0000,
        decreases k,
    {
        k -= 1;
        proof {
            lemma_window_value_front(buf@, k as int, (n - k) as nat);
            lemma_shifted_window(buf@, 0, n as nat, k as nat);
            lemma_shifted_shrinks(trits_value(buf@), k as nat);
        }
        acc = 3 * acc + buf[k] as i128;
    }
    acc as isize
}

/// Writes the `out.len()` least significant trits of `input` into `out`.
pub fn int2trits(input: isize, out: &mut [Trit])
    requires
        magnitude(input as int) <= max_value(old(out)@.len()),
    ensures
        final(out)@ == balanced(input as int, old(out)@.len()),
{
    let n = out.len();
    let wide = input as i128;
    let negative = wide < 0;
    let mut cur: u128 = if negative {
        (-wide) as u128
    } else {
        wide as u128
    };
    let mut i: usize = 0;
    while i < n
        invariant
            i <= n,
            out@.len() == n,
            negative == (input < 0),
            cur == magnitude(shifted(input as int, i as nat)),
            cur <= 0x8000_0000_0000_0000,
            forall|j: int| 0 <= j < i ==> out@[j] == balanced(input as int, n as nat)[j],
        decreases n - i,
    {
        proof {
            lemma_shifted_shrinks(input as int, i as nat);
            lemma_shifted_shrinks(input as int, (i + 1) as nat);
        }
        let rem = cur % 3;
        let digit: Trit = if rem == 2 {
            -1
        } else if rem == 1 {
            1
        } else {
            0
        };
        let next = if rem == 2 {
            cur / 3 + 1
        } else {
            cur / 3
        };
        out[i] = if negative {
            -digit
        } else {
            digit
        };
        cur = next;
        i += 1;
    }
    assert(out@ =~= balanced(input as int, n as nat));
}

/// Adds one to the number in `buf`, carrying from trit to trit.
pub fn incr(buf: &mut [Trit])
    requires
        valid_trits(old(buf)@),
    ensures
        final(buf)@ == incremented(old(buf)@),
{
    let n = buf.len();
    let mut i: usize = 0;
    while i < n
        invariant
            i <= n,
            buf@.len() == n,
            old(buf)@.len() == n,
            valid_trits(old(buf)@),
            forall|j: int| 0 <= j < i ==> old(buf)@[j] == 1 && buf@[j] == -1,
            forall|j: int| i <= j < n ==> buf@[j] == old(buf)@[j],
        decreases n - i,
    {
        if buf[i] == 1 {
            buf[i] = -1;
            i += 1;
        } else {
            assert(is_trit(old(buf)@[i as int]));
            buf[i] = buf[i] + 1;
            proof {
                lemma_leading_ones(old(buf)@, i as nat);
                assert(buf@ =~= incremented(old(buf)@));
            }
            return ;
        }
    }
    proof {
        lemma_leading_ones(old(buf)@, n as nat);
        assert(buf@ =~= incremented(old(buf)@));
    }
}

/// Adds `k` to the number in `buf`: the trits of `buf` become the trits of the sum, and
/// what they cannot hold is dropped.
pub fn add_assign(buf: &mut [Trit], k: isize)
    ensures
        final(buf)@ == balanced(trits_value(old(buf)@) + k, old(buf)@.len()),
{
    let n = buf.len();
    let ghost given = buf@;
    let mut carry: i128 = k as i128;
    let mut i: usize = 0;
    assert(pow3(0) == 1);
    assert(window_value(given, 0, 0) == 0);
    while i < n
        invariant
            i <= n,
            n == buf@.len(),
            n == given.len(),
            given == old(buf)@,
            -0x8000_0000_0000_0000 <= carry <= 0x8000_0000_0000_0000,
            valid_window(buf@, 0, i as nat),
            forall|j: int| i <= j < n ==> buf@[j] == given[j],
            trits_value(given) + k == window_value(buf@, 0, i as nat) + pow3(i as nat) * (carry
                + window_value(given, i as int, (n - i) as nat)),
        decreases n - i,
    {
        let lifted: u128 = (buf[i] as i128 + carry + 1 + 0x3_0000_0000_0000_0000) as u128;
        let digit: Trit = ((lifted % 3) as i8) - 1;
        let next: i128 = (lifted / 3) as i128 - 0x1_0000_0000_0000_0000;
        proof {
            let sum = given[i as int] + carry;
            let rest = window_value(given, i + 1, (n - i - 1) as nat);
            let p = pow3(i as nat);
            assert(digit == low_trit(sum));
            assert(next == drop_trit(sum));
            lemma_window_value_front(given, i as int, (n - i) as nat);
            assert(p * (carry + (given[i as int] + 3 * rest)) == p * digit + (3 * p) * (next
                + rest)) by (nonlinear_arith)
                requires
                    given[i as int] + carry == 3 * next + digit,
            ;
        }
        let ghost before = buf@;
        buf[i] = digit;
        proof {
            assert(buf@.subrange(0, i as int) =~= before.subrange(0, i as int));
            lemma_window_value_same(buf@, 0, before, 0, i as nat);
        }
        carry = next;
        i += 1;
    }
    proof {
        assert(window_value(given, n as int, 0) == 0);
        assert(valid_trits(buf@));
        lemma_balanced_of_wrapped(buf@, carry as int);
    }
}

/// The sum of two trits modulo 3, as a trit.
pub fn trit_sum(a: Trit, b: Trit) -> (sum: Trit)
    ensures
        sum == trit_sum_of(a, b),
        is_trit(sum),
{
    let s = a as i16 + b as i16;
    let r = (s + 259) % 3;
    (r - 1) as Trit
}

/// The difference of two trits modulo 3, as a trit.
pub fn trit_diff(a: Trit, b: Trit) -> (diff: Trit)
    ensures
        diff == trit_diff_of(a, b),
        is_trit(diff),
{
    let s = a as i16 - b as i16;
    let r = (s + 259) % 3;
    (r - 1) as Trit
}

/// Taking a trit away after adding it gives the first trit back.
pub proof fn lemma_trit_sum_diff(a: Trit, b: Trit)
    requires
        is_trit(a),
    ensures
        trit_diff_of(trit_sum_of(a, b), b) == a,
        trit_sum_of(trit_diff_of(a, b), b) == a,
{
}

/// The opposite trit; what is no trit becomes 0.
pub fn negated(t: Trit) -> (r: Trit)
    ensures
        r == negated_trit(t),
{
    if t == 1 {
        -1
    } else if t == -1 {
        1
    } else {
        0
    }
}

/// Copies `src` over `dst`.
pub fn copy_trits(dst: &mut [Trit], src: &[Trit])
    requires
        old(dst)@.len() == src@.len(),
    ensures
        final(dst)@ == src@,
{
    let n = src.len();
    let mut i: usize = 0;
    while i < n
        invariant
            i <= n,
            n == src@.len(),
            dst@.len() == n,
            forall|j: int| 0 <= j < i ==> dst@[j] == src@[j],
        decreases n - i,
    {
        dst[i] = src[i];
        i += 1;
    }
    assert(dst@ =~= src@);
}

} // verus!
