//! The Merkle tree over the addresses of a channel's keys.
//!
//! The leaves are the addresses, `HASH_LENGTH` trits each. A node is the hash of its
//! two children, left before right. A node below which no leaf lies is the zero word,
//! so a tree need not have a power of two of leaves. The tree is as high as it takes
//! for one node to span all leaves. The siblings of a leaf are the nodes beside its
//! path to the root, from the leaf up; with them a reader gets from the leaf to the
//! root.

use vstd::prelude::*;
use vstd::slice::slice_subrange;
use vstd::slice::slice_to_vec;
use crate::curl::Curl;
use crate::iss::Iss;
use crate::iss::KEY_LENGTH;
use crate::trits::Trit;
use crate::trits::HASH_LENGTH;
use crate::trits::valid_trits;
use crate::trits::pow2;
use crate::trits::halved;
use crate::trits::incremented_by;
use crate::trits::incr;
use crate::trits::copy_trits;
use crate::trits::lemma_pow2_positive;
use crate::trits::lemma_pow2_monotonic;
use crate::trits::lemma_incremented_valid;

verus! {

/// The word of zeros that stands for a node without leaves.
pub open spec fn zero_hash() -> Seq<Trit> {
    Seq::new(HASH_LENGTH as nat, |i: int| 0i8)
}

/// The hash of `left` and `right`: what the rate of a sponge holds that was reset and
/// then absorbed the two.
pub open spec fn node_hash<C: Curl<Trit>>(left: Seq<Trit>, right: Seq<Trit>) -> Seq<Trit> {
    C::blank().absorbed(left).absorbed(right).rate_of()
}

/// The number of whole addresses in `addrs`.
pub open spec fn leaf_count(addrs: Seq<Trit>) -> nat {
    addrs.len() / (HASH_LENGTH as nat)
}

/// Address `idx` of `addrs`.
pub open spec fn leaf(addrs: Seq<Trit>, idx: nat) -> Seq<Trit> {
    addrs.subrange(HASH_LENGTH * idx, HASH_LENGTH * idx + HASH_LENGTH)
}

/// Node `idx` of the tree over `addrs`, `rank` levels above the leaves.
pub open spec fn node<C: Curl<Trit>>(addrs: Seq<Trit>, rank: nat, idx: nat) -> Seq<Trit>
    decreases rank,
{
    if idx * pow2(rank) >= leaf_count(addrs) {
        zero_hash()
    } else if rank == 0 {
        leaf(addrs, idx)
    } else {
        node_hash::<C>(
            node::<C>(addrs, (rank - 1) as nat, 2 * idx),
            node::<C>(addrs, (rank - 1) as nat, 2 * idx + 1),
        )
    }
}

/// The least `j >= k` with `2^j >= n`.
pub open spec fn depth_from(n: nat, k: nat) -> nat
    decreases
            (if n > pow2(k) {
                n - pow2(k)
            } else {
                0
            }),
{
    if n <= pow2(k) {
        k
    } else {
        proof {
            lemma_pow2_positive(k);
        }
        depth_from(n, k + 1)
    }
}

/// The height of a tree of `n` leaves, which is the number of siblings of a leaf:
/// the least `k` with `2^k >= n`.
pub open spec fn siblings_count_of(n: nat) -> nat {
    depth_from(n, 0)
}

/// The root of the tree over `addrs`.
pub open spec fn tree_root<C: Curl<Trit>>(addrs: Seq<Trit>) -> Seq<Trit> {
    node::<C>(addrs, siblings_count_of(leaf_count(addrs)), 0)
}

/// The node beside node `idx`, under the same parent.
pub open spec fn sibling_of(idx: nat) -> nat {
    if idx % 2 == 0 {
        idx + 1
    } else {
        (idx - 1) as nat
    }
}

/// The node on the path of leaf `index` at `rank`.
pub open spec fn ancestor(index: nat, rank: nat) -> nat {
    halved(index as int, rank) as nat
}

/// The siblings of leaf `index` in the tree over `addrs`, from the leaf up.
pub open spec fn sibling_hashes<C: Curl<Trit>>(addrs: Seq<Trit>, index: nat) -> Seq<Seq<Trit>> {
    Seq::new(
        siblings_count_of(leaf_count(addrs)),
        |rank: int| node::<C>(addrs, rank as nat, sibling_of(ancestor(index, rank as nat))),
    )
}

/// The number of hashes that `len` trits hold, where the last may be cut short.
pub open spec fn chunk_count(len: nat) -> nat {
    (len + HASH_LENGTH - 1) as nat / (HASH_LENGTH as nat)
}

/// `s` cut into hashes, the last one shorter where `s` ends early.
pub open spec fn chunks(s: Seq<Trit>) -> Seq<Seq<Trit>> {
    Seq::new(
        chunk_count(s.len()),
        |k: int|
            s.subrange(
                HASH_LENGTH * k,
                if HASH_LENGTH * k + HASH_LENGTH <= s.len() {
                    HASH_LENGTH * k + HASH_LENGTH
                } else {
                    s.len() as int
                },
            ),
    )
}

/// The node reached from `address` with the hashes beside the path: at each level the
/// lowest bit of `index` tells the side, 0 for `address` on the left, and `index` is
/// halved for the next level.
pub open spec fn root_over<C: Curl<Trit>>(
    address: Seq<Trit>,
    hashes: Seq<Seq<Trit>>,
    index: nat,
) -> Seq<Trit>
    decreases hashes.len(),
{
    if hashes.len() == 0 {
        address
    } else {
        let up = if index % 2 == 0 {
            node_hash::<C>(address, hashes[0])
        } else {
            node_hash::<C>(hashes[0], address)
        };
        root_over::<C>(up, hashes.drop_first(), index / 2)
    }
}

/// The root that `address` at `index` and the sibling trits `hashes` lead to.
pub open spec fn root_of<C: Curl<Trit>>(address: Seq<Trit>, hashes: Seq<Trit>, index: nat) -> Seq<
    Trit,
> {
    root_over::<C>(address, chunks(hashes), index)
}

/// The value of `2^64`.
proof fn lemma_pow2_64()
    ensures
        pow2(64) == 18446744073709551616,
{
    assert(pow2(8) == 256) by {
        reveal_with_fuel(pow2, 9);
    }
    assert(pow2(16) == 65536) by {
        reveal_with_fuel(pow2, 9);
    }
    assert(pow2(24) == 16777216) by {
        reveal_with_fuel(pow2, 9);
    }
    assert(pow2(32) == 4294967296) by {
        reveal_with_fuel(pow2, 9);
    }
    assert(pow2(40) == 1099511627776) by {
        reveal_with_fuel(pow2, 9);
    }
    assert(pow2(48) == 281474976710656) by {
        reveal_with_fuel(pow2, 9);
    }
    assert(pow2(56) == 72057594037927936) by {
        reveal_with_fuel(pow2, 9);
    }
    assert(pow2(64) == 18446744073709551616) by {
        reveal_with_fuel(pow2, 9);
    }
}

/// `depth_from` returns the least fitting height from `k` on.
pub proof fn lemma_depth_from(n: nat, k: nat)
    ensures
        depth_from(n, k) >= k,
        n <= pow2(depth_from(n, k)),
        forall|j: nat| k <= j < depth_from(n, k) ==> n > pow2(j),
    decreases
            (if n > pow2(k) {
                n - pow2(k)
            } else {
                0
            }),
{
    if n > pow2(k) {
        lemma_pow2_positive(k);
        lemma_depth_from(n, k + 1);
        assert forall|j: nat| k <= j < depth_from(n, k) implies n > pow2(j) by {
            if j > k {
                assert(k + 1 <= j && j < depth_from(n, k + 1));
            }
        }
    }
}

/// The path of a leaf stays over the leaf: node `ancestor(index, rank)` starts at or
/// before leaf `index`, and the next node starts after it.
pub proof fn lemma_ancestor(index: nat, rank: nat)
    ensures
        halved(index as int, rank) >= 0,
        ancestor(index, rank) * pow2(rank) <= index < (ancestor(index, rank) + 1) * pow2(rank),
        ancestor(index, rank + 1) == ancestor(index, rank) / 2,
    decreases rank,
{
    if rank > 0 {
        let r = (rank - 1) as nat;
        lemma_ancestor(index, r);
        let a = ancestor(index, r) as int;
        let h = a / 2;
        let p = pow2(r);
        lemma_pow2_positive(r);
        assert(ancestor(index, rank) == h);
        assert(h * (2 * p) <= a * p && (a + 1) * p <= (h + 1) * (2 * p)) by (nonlinear_arith)
            requires
                h == a / 2,
                a >= 0,
                p >= 1,
        ;
    } else {
        assert(pow2(0) == 1);
        assert(ancestor(index, 0) * 1 == index) by (nonlinear_arith)
            requires
                ancestor(index, 0) == index,
        ;
        assert((ancestor(index, 0) + 1) * 1 == index + 1) by (nonlinear_arith)
            requires
                ancestor(index, 0) == index,
        ;
    }
}

/// From any level of its path, a leaf and the siblings above that level lead to the
/// root.
proof fn lemma_path_reaches_root<C: Curl<Trit>>(addrs: Seq<Trit>, index: nat, rank: nat)
    requires
        index < leaf_count(addrs),
        rank <= siblings_count_of(leaf_count(addrs)),
    ensures
        root_over::<C>(
            node::<C>(addrs, rank, ancestor(index, rank)),
            sibling_hashes::<C>(addrs, index).subrange(
                rank as int,
                siblings_count_of(leaf_count(addrs)) as int,
            ),
            ancestor(index, rank),
        ) == tree_root::<C>(addrs),
    decreases siblings_count_of(leaf_count(addrs)) - rank,
{
    let n = leaf_count(addrs);
    let depth = siblings_count_of(n);
    let all = sibling_hashes::<C>(addrs, index);
    let rest = all.subrange(rank as int, depth as int);
    let a = ancestor(index, rank);
    lemma_ancestor(index, rank);
    lemma_depth_from(n, 0);
    if rank == depth {
        lemma_pow2_positive(depth);
        assert(a == 0) by (nonlinear_arith)
            requires
                a * pow2(depth) <= index,
                index < n,
                n <= pow2(depth),
                pow2(depth) >= 1,
                a >= 0,
        ;
    } else {
        lemma_path_reaches_root::<C>(addrs, index, rank + 1);
        lemma_ancestor(index, rank + 1);
        let parent = ancestor(index, rank + 1);
        assert(parent * pow2(rank + 1) < n);
        assert(rest[0] == node::<C>(addrs, rank, sibling_of(a)));
        assert(rest.drop_first() =~= all.subrange(rank as int + 1, depth as int));
        assert(node::<C>(addrs, rank + 1, parent) == node_hash::<C>(
            node::<C>(addrs, rank, 2 * parent),
            node::<C>(addrs, rank, 2 * parent + 1),
        ));
    }
}

/// Every leaf leads to the same root with its own siblings: the root of the tree.
pub proof fn theorem_siblings_lead_to_root<C: Curl<Trit>>(addrs: Seq<Trit>, index: nat)
    requires
        index < leaf_count(addrs),
    ensures
        root_over::<C>(leaf(addrs, index), sibling_hashes::<C>(addrs, index), index) == tree_root::<
            C,
        >(addrs),
{
    let depth = siblings_count_of(leaf_count(addrs));
    let all = sibling_hashes::<C>(addrs, index);
    lemma_path_reaches_root::<C>(addrs, index, 0);
    assert(all.subrange(0, depth as int) =~= all);
    assert(pow2(0) == 1);
    assert(index * 1 == index) by (nonlinear_arith);
}

/// Two leaves of one tree lead to one root.
pub proof fn theorem_one_root<C: Curl<Trit>>(addrs: Seq<Trit>, i: nat, j: nat)
    requires
        i < leaf_count(addrs),
        j < leaf_count(addrs),
    ensures
        root_over::<C>(leaf(addrs, i), sibling_hashes::<C>(addrs, i), i) == root_over::<C>(
            leaf(addrs, j),
            sibling_hashes::<C>(addrs, j),
            j,
        ),
{
    theorem_siblings_lead_to_root::<C>(addrs, i);
    theorem_siblings_lead_to_root::<C>(addrs, j);
}

/// The number of siblings of a leaf in a tree of `addr_count` leaves.
pub fn siblings_count(addr_count: usize) -> (count: usize)
    ensures
        count == siblings_count_of(addr_count as nat),
        count <= 64,
{
    let mut power: u128 = 1;
    let mut count: usize = 0;
    assert(pow2(0) == 1);
    while power < addr_count as u128
        invariant
            count <= 64,
            power == pow2(count as nat),
            depth_from(addr_count as nat, count as nat) == siblings_count_of(addr_count as nat),
        decreases 64 - count,
    {
        proof {
            lemma_pow2_64();
            if count >= 64 {
                lemma_pow2_monotonic(64, count as nat);
            }
            lemma_pow2_monotonic((count + 1) as nat, 64);
        }
        power = power * 2;
        count += 1;
    }
    count
}

/// Hashes `left` and `right` to their parent.
fn hash_pair<C: Curl<Trit>>(left: &[Trit], right: &[Trit], curl: &mut C) -> (hash: [Trit; 243])
    ensures
        hash@ == node_hash::<C>(left@, right@),
{
    let mut hash: [Trit; 243] = [0i8; 243];
    curl.reset();
    curl.absorb(left);
    curl.absorb(right);
    copy_trits(&mut hash, curl.rate());
    hash
}

/// Node `idx` of the tree over `addrs`, `rank` levels above the leaves.
fn subtree<C: Curl<Trit>>(addrs: &[Trit], rank: usize, idx: usize, curl: &mut C) -> (hash: [Trit;
    243])
    requires
        rank <= 64,
    ensures
        hash@ == node::<C>(addrs@, rank as nat, idx as nat),
    decreases rank,
{
    let n = addrs.len() / HASH_LENGTH;
    let mut first: u128 = idx as u128;
    let mut k: usize = 0;
    assert(pow2(0) == 1);
    assert(idx * 1 == idx) by (nonlinear_arith);
    while k < rank && first < n as u128
        invariant
            k <= rank,
            first == idx * pow2(k as nat),
            k > 0 ==> first <= 2 * (usize::MAX as int),
        decreases rank - k,
    {
        proof {
            let p = pow2(k as nat);
            assert(idx * (2 * p) == 2 * (idx * p)) by (nonlinear_arith);
        }
        first = first * 2;
        k += 1;
    }
    if first >= n as u128 {
        proof {
            lemma_pow2_monotonic(k as nat, rank as nat);
            lemma_pow2_positive(k as nat);
            let p = pow2(k as nat);
            let q = pow2(rank as nat);
            assert(idx * p <= idx * q) by (nonlinear_arith)
                requires
                    p <= q,
                    idx >= 0,
            ;
        }
        let hash: [Trit; 243] = [0i8; 243];
        assert(hash@ =~= zero_hash());
        return hash;
    }
    if rank == 0 {
        let mut hash: [Trit; 243] = [0i8; 243];
        copy_trits(
            &mut hash,
            slice_subrange(addrs, HASH_LENGTH * idx, HASH_LENGTH * idx + HASH_LENGTH),
        );
        return hash;
    }
    proof {
        lemma_pow2_positive(rank as nat);
        let q = pow2(rank as nat);
        assert(idx <= idx * q) by (nonlinear_arith)
            requires
                q >= 1,
                idx >= 0,
        ;
    }
    let left = subtree(addrs, rank - 1, 2 * idx, curl);
    let right = subtree(addrs, rank - 1, 2 * idx + 1, curl);
    hash_pair(&left, &right, curl)
}

/// Writes the siblings of leaf `index` of the tree over `addrs` to `out`, from the leaf
/// up.
pub fn siblings<C: Curl<Trit>>(addrs: &[Trit], index: usize, out: &mut [Trit], curl: &mut C)
    requires
        old(out)@.len() == siblings_count_of(leaf_count(addrs@)) * HASH_LENGTH,
    ensures
        chunks(final(out)@) == sibling_hashes::<C>(addrs@, index as nat),
        final(out)@.len() == old(out)@.len(),
        *final(curl) == C::blank(),
{
    let depth = siblings_count(addrs.len() / HASH_LENGTH);
    let ghost want = sibling_hashes::<C>(addrs@, index as nat);
    let mut rank: usize = 0;
    let mut on_path: usize = index;
    while rank < depth
        invariant
            rank <= depth <= 64,
            depth == siblings_count_of(leaf_count(addrs@)),
            out@.len() == depth * HASH_LENGTH,
            want == sibling_hashes::<C>(addrs@, index as nat),
            on_path == ancestor(index as nat, rank as nat),
            forall|k: int|
                0 <= k < rank ==> #[trigger] want[k] == out@.subrange(
                    HASH_LENGTH * k,
                    HASH_LENGTH * k + HASH_LENGTH,
                ),
        decreases depth - rank,
    {
        let beside = if on_path % 2 == 0 {
            on_path + 1
        } else {
            on_path - 1
        };
        let hash = subtree(addrs, rank, beside, curl);
        let ghost before = out@;
        let (_, upper) = out.split_at_mut(HASH_LENGTH * rank);
        let (here, _) = upper.split_at_mut(HASH_LENGTH);
        copy_trits(here, &hash);
        proof {
            lemma_ancestor(index as nat, rank as nat);
            assert(out@.subrange(HASH_LENGTH * rank, HASH_LENGTH * rank + HASH_LENGTH) =~= hash@);
            assert forall|k: int| 0 <= k < rank implies #[trigger] want[k] == out@.subrange(
                HASH_LENGTH * k,
                HASH_LENGTH * k + HASH_LENGTH,
            ) by {
                assert(out@.subrange(HASH_LENGTH * k, HASH_LENGTH * k + HASH_LENGTH)
                    =~= before.subrange(HASH_LENGTH * k, HASH_LENGTH * k + HASH_LENGTH));
            }
        }
        on_path = on_path / 2;
        rank += 1;
    }
    curl.reset();
    assert(chunks(out@) =~= want);
}

/// The root that `address` at `index` and the siblings `hashes` lead to.
pub fn root<C: Curl<Trit>>(address: &[Trit], hashes: &[Trit], index: usize, curl: &mut C) -> (out:
    Vec<Trit>)
    ensures
        out@ == root_of::<C>(address@, hashes@, index as nat),
        address@.len() == HASH_LENGTH || hashes@.len() > 0 ==> out@.len() == HASH_LENGTH,
        *final(curl) == C::blank(),
{
    let n = hashes.len();
    let ghost all = chunks(hashes@);
    let mut reached: [Trit; 243] = [0i8; 243];
    let mut on_path: usize = index;
    let mut pos: usize = 0;
    let ghost mut k: int = 0;
    assert(all.subrange(0, all.len() as int) =~= all);
    while pos < n
        invariant
            pos <= n,
            n == hashes@.len(),
            all == chunks(hashes@),
            pos % HASH_LENGTH == 0 || pos == n,
            k == chunk_count(pos as nat),
            0 <= k <= all.len(),
            root_of::<C>(address@, hashes@, index as nat) == root_over::<C>(
                if pos == 0 {
                    address@
                } else {
                    reached@
                },
                all.subrange(k, all.len() as int),
                on_path as nat,
            ),
        decreases n - pos,
    {
        let len = if n - pos < HASH_LENGTH {
            n - pos
        } else {
            HASH_LENGTH
        };
        let hash = slice_subrange(hashes, pos, pos + len);
        proof {
            let rest = all.subrange(k, all.len() as int);
            assert(k < all.len());
            assert(rest[0] == all[k]);
            assert(all[k] =~= hash@);
            assert(rest.drop_first() =~= all.subrange(k + 1, all.len() as int));
        }
        reached = if pos == 0 {
            if on_path % 2 == 0 {
                hash_pair(address, hash, curl)
            } else {
                hash_pair(hash, address, curl)
            }
        } else {
            if on_path % 2 == 0 {
                hash_pair(&reached, hash, curl)
            } else {
                hash_pair(hash, &reached, curl)
            }
        };
        on_path = on_path / 2;
        pos += len;
        proof {
            k = k + 1;
        }
    }
    curl.reset();
    if n == 0 {
        slice_to_vec(address)
    } else {
        slice_to_vec(&reached)
    }
}

/// Writes the key of `security` units of leaf `index` under `seed` over `out`: the key
/// that the subseed of `seed` incremented `index` times expands to.
pub fn key<C: Curl<Trit>, I: Iss>(
    seed: &[Trit],
    index: usize,
    security: u8,
    out: &mut [Trit],
    curl: &mut C,
)
    requires
        seed@.len() == HASH_LENGTH,
        valid_trits(seed@),
        1 <= security <= 3,
        old(out)@.len() == security * KEY_LENGTH,
    ensures
        final(out)@ == I::key_of::<C>(
            I::subseed_of::<C>(incremented_by(seed@, index as nat), 0),
            security as nat,
        ),
        final(out)@.len() == old(out)@.len(),
        *final(curl) == C::blank(),
{
    let mut subseed: [Trit; 243] = [0i8; 243];
    copy_trits(&mut subseed, seed);
    let mut i: usize = 0;
    while i < index
        invariant
            i <= index,
            subseed@ == incremented_by(seed@, i as nat),
            valid_trits(subseed@),
        decreases index - i,
    {
        proof {
            lemma_incremented_valid(subseed@);
        }
        incr(&mut subseed);
        i += 1;
    }
    curl.reset();
    let (first, _) = out.split_at_mut(HASH_LENGTH);
    I::subseed(&subseed, 0, first, curl);
    curl.reset();
    assert(out@.subrange(0, HASH_LENGTH as int) =~= I::subseed_of::<C>(subseed@, 0));
    I::key(out, security as usize, curl);
    curl.reset();
}

} // verus!
