use mam::curl::BCTrit;
use mam::curl::Curl;
use mam::curl::HammingNonce;
use mam::iss::checksum_security;
use mam::iss::Iss;
use mam::iss::KEY_LENGTH;
use mam::mam::create;
use mam::mam::id;
use mam::mam::leads_to_root;
use mam::mam::read_branch;
use mam::mam::read_frame;
use mam::mam::min_length;
use mam::mam::parse;
use mam::mask::mask_slice;
use mam::mask::unmask_slice;
use mam::merkle::key;
use mam::merkle::root;
use mam::merkle::siblings;
use mam::merkle::siblings_count;
use mam::pascal::encoded_length;
use mam::trits::trit_diff;
use mam::trits::trit_sum;
use mam::trits::Trit;
use mam::trits::HASH_LENGTH;
use mam::MamError;

// A sponge of 729 trits with the usual substitution over 81 rounds: absorbing writes
// each window of 243 trits, or less, over the start of the state and then permutes.
struct Sponge {
    state: [Trit; 729],
}

const TRUTH_TABLE: [Trit; 11] = [1, 0, -1, 2, 1, -1, 0, 2, -1, 1, 0];

impl Sponge {
    fn new() -> Sponge {
        Sponge { state: [0; 729] }
    }

    fn transform(&mut self) {
        let mut scratch = [0 as Trit; 729];
        let mut at = 0usize;
        for _ in 0..81 {
            scratch.copy_from_slice(&self.state);
            for i in 0..729 {
                let a = scratch[at];
                at = if at < 365 { at + 364 } else { at - 365 };
                let b = scratch[at];
                self.state[i] = TRUTH_TABLE[(a + (b << 2) + 5) as usize];
            }
        }
    }
}

impl Curl<Trit> for Sponge {
    fn absorb(&mut self, trits: &[Trit]) {
        for chunk in trits.chunks(HASH_LENGTH) {
            self.state[..chunk.len()].copy_from_slice(chunk);
            self.transform();
        }
    }

    fn squeeze(&mut self, out: &mut [Trit]) {
        for chunk in out.chunks_mut(HASH_LENGTH) {
            chunk.copy_from_slice(&self.state[..chunk.len()]);
            self.transform();
        }
    }

    fn duplex(&mut self, trits: &[Trit], out: &mut [Trit]) {
        for (taken, given) in trits.chunks(HASH_LENGTH).zip(out.chunks_mut(HASH_LENGTH)) {
            self.state[..taken.len()].copy_from_slice(taken);
            self.transform();
            given.copy_from_slice(&self.state[..given.len()]);
        }
    }

    fn rate(&self) -> &[Trit] {
        &self.state[..HASH_LENGTH]
    }

    fn state(&self) -> &[Trit] {
        &self.state
    }

    fn state_mut(&mut self) -> &mut [Trit] {
        &mut self.state
    }

    fn reset(&mut self) {
        self.state = [0; 729];
    }
}

// The sponge over coded trits is handed to the search alone, which here does not use it.
struct Lanes {
    state: Vec<BCTrit>,
}

impl Lanes {
    fn new() -> Lanes {
        Lanes { state: vec![(0, 0); 729] }
    }
}

impl Curl<BCTrit> for Lanes {
    fn absorb(&mut self, trits: &[BCTrit]) {
        for (i, t) in trits.iter().enumerate() {
            self.state[i % HASH_LENGTH] = *t;
        }
    }

    fn squeeze(&mut self, out: &mut [BCTrit]) {
        for (i, t) in out.iter_mut().enumerate() {
            *t = self.state[i % HASH_LENGTH];
        }
    }

    fn duplex(&mut self, trits: &[BCTrit], out: &mut [BCTrit]) {
        self.absorb(trits);
        self.squeeze(out);
    }

    fn rate(&self) -> &[BCTrit] {
        &self.state[..HASH_LENGTH]
    }

    fn state(&self) -> &[BCTrit] {
        &self.state
    }

    fn state_mut(&mut self) -> &mut [BCTrit] {
        &mut self.state
    }

    fn reset(&mut self) {
        self.state = vec![(0, 0); 729];
    }
}

// Tries nonces in turn. A nonce fits where the masking sponge, once it has absorbed the
// masked nonce, holds a hash of just the weight asked for.
struct Search;

impl HammingNonce for Search {
    fn search<C: Curl<Trit>, CB: Curl<BCTrit>>(
        security: u8,
        offset: usize,
        length: usize,
        tcurl: &mut C,
        _bcurl: &mut CB,
    ) -> Option<usize> {
        let start: Vec<Trit> = tcurl.state().to_vec();
        let mut nonce = vec![0 as Trit; length];
        for _ in 0..100000 {
            let mut masked = start[..offset + length].to_vec();
            for i in 0..length {
                masked[offset + i] = trit_sum(nonce[i], start[offset + i]);
            }
            tcurl.state_mut().copy_from_slice(&start);
            tcurl.absorb(&masked);
            if checksum_security(tcurl.rate()) == security as usize {
                tcurl.state_mut().copy_from_slice(&start);
                tcurl.state_mut()[offset..offset + length].copy_from_slice(&nonce);
                return Some(length);
            }
            mam::trits::incr(&mut nonce);
        }
        tcurl.state_mut().copy_from_slice(&start);
        None
    }
}

// A search that gives up at once.
struct NoSearch;

impl HammingNonce for NoSearch {
    fn search<C: Curl<Trit>, CB: Curl<BCTrit>>(
        _security: u8,
        _offset: usize,
        _length: usize,
        _tcurl: &mut C,
        _bcurl: &mut CB,
    ) -> Option<usize> {
        None
    }
}

// Signatures with the algebra of the real ones and none of their strength: a signature
// is the key with a stream added that the hash fixes, so that the hash and the
// signature give the key back, and with it its digest.
struct Signer;

fn stream<C: Curl<Trit>>(hash: &[Trit], length: usize, curl: &mut C) -> Vec<Trit> {
    let mut out = vec![0 as Trit; length];
    curl.reset();
    curl.absorb(hash);
    curl.squeeze(&mut out);
    curl.reset();
    out
}

fn digest_key<C: Curl<Trit>>(key: &[Trit], curl: &mut C) -> Vec<Trit> {
    let mut digest = vec![0 as Trit; key.len() / KEY_LENGTH * HASH_LENGTH];
    curl.reset();
    curl.absorb(key);
    curl.squeeze(&mut digest);
    curl.reset();
    digest
}

impl Iss for Signer {
    fn subseed<C: Curl<Trit>>(seed: &[Trit], index: isize, out: &mut [Trit], curl: &mut C) {
        let mut moved = seed.to_vec();
        mam::trits::add_assign(&mut moved, index);
        curl.absorb(&moved);
        curl.squeeze(out);
    }

    fn key<C: Curl<Trit>>(key_space: &mut [Trit], _security: usize, curl: &mut C) {
        curl.absorb(&key_space[..HASH_LENGTH]);
        curl.squeeze(key_space);
    }

    fn signature<C: Curl<Trit>>(hash: &[Trit], key: &mut [Trit], curl: &mut C) {
        let stream = stream(hash, key.len(), curl);
        for i in 0..key.len() {
            key[i] = trit_sum(key[i], stream[i]);
        }
    }

    fn digest_bundle_signature<C: Curl<Trit>>(hash: &[Trit], signature: &mut [Trit], curl: &mut C) {
        let stream = stream(hash, signature.len(), curl);
        for i in 0..signature.len() {
            signature[i] = trit_diff(signature[i], stream[i]);
        }
        let digest = digest_key(signature, curl);
        signature[..digest.len()].copy_from_slice(&digest);
    }

    fn address<C: Curl<Trit>>(digest: &mut [Trit], curl: &mut C) {
        curl.absorb(digest);
        let address = curl.rate().to_vec();
        digest[..HASH_LENGTH].copy_from_slice(&address);
    }
}

fn char_to_trits(c: char) -> [Trit; 3] {
    let at = "9ABCDEFGHIJKLMNOPQRSTUVWXYZ".find(c).unwrap() as isize;
    let value = if at > 13 { at - 27 } else { at };
    let mut out = [0 as Trit; 3];
    mam::trits::int2trits(value, &mut out);
    out
}

fn trits(s: &str) -> Vec<Trit> {
    s.chars().flat_map(char_to_trits).collect()
}

const SEED: &str = "ABCDEFGHIJKLMNOPQRSTUVWXYZ9ABCDEFGHIJKLMNOPQRSTUVWXYZ9ABCDEFGHIJKLMNOPQRSTUVWXYZ9";
const SIDE_KEY: &str = "EFGHIJKLMNOPQRSTUVWXYZ9ABCDEFGHIJKLMNOPQRSTUVWXYZ9ABCDABCD";

// The addresses of the keys `start .. start + count` under `seed`, one after the other.
fn addresses(seed: &[Trit], start: usize, count: usize, security: u8) -> Vec<Trit> {
    let mut curl = Sponge::new();
    let mut out = Vec::new();
    for leaf in start..start + count {
        let mut space = vec![0 as Trit; security as usize * KEY_LENGTH];
        key::<Sponge, Signer>(seed, leaf, security, &mut space, &mut curl);
        let mut digest = digest_key(&space, &mut curl);
        Signer::address(&mut digest, &mut curl);
        curl.reset();
        out.extend_from_slice(&digest[..HASH_LENGTH]);
    }
    out
}

fn path(addrs: &[Trit], index: usize) -> Vec<Trit> {
    let mut curl = Sponge::new();
    let mut out = vec![0 as Trit; siblings_count(addrs.len() / HASH_LENGTH) * HASH_LENGTH];
    siblings(addrs, index, &mut out, &mut curl);
    out
}

fn tree_root(addrs: &[Trit]) -> Vec<Trit> {
    let mut curl = Sponge::new();
    let hashes = path(addrs, 0);
    root(&addrs[..HASH_LENGTH], &hashes, 0, &mut curl)
}

struct Made {
    payload: Vec<Trit>,
    root: Vec<Trit>,
    next: Vec<Trit>,
}

// A payload for the key at `index` of the tree over the keys `start .. start + count`,
// whose next root is that of the `next_count` keys after them.
fn make(
    message: &[Trit],
    security: u8,
    start: usize,
    count: usize,
    next_count: usize,
    index: usize,
) -> Made {
    let seed = trits(SEED);
    let side_key = trits(SIDE_KEY);
    let addrs = addresses(&seed, start, count, security);
    let next_addrs = addresses(&seed, start + count, next_count, security);
    let root_trits = tree_root(&addrs);
    let next = tree_root(&next_addrs);
    let hashes = path(&addrs, index);
    let mut payload =
        vec![0 as Trit; min_length(message.len(), hashes.len(), index, security as usize)];
    let mut c1 = Sponge::new();
    let mut c2 = Sponge::new();
    let mut bc = Lanes::new();
    let written = create::<Sponge, Lanes, Search, Signer>(
        &seed,
        message,
        &side_key,
        &root_trits,
        &hashes,
        &next,
        start as isize,
        index,
        security,
        &mut payload,
        &mut c1,
        &mut c2,
        &mut bc,
    );
    assert_eq!(written, Some(payload.len()));
    Made { payload, root: root_trits, next }
}

fn read(payload: &mut [Trit], side_key: &[Trit], root_trits: &[Trit]) -> Result<(usize, usize), MamError> {
    let mut curl = Sponge::new();
    parse::<Sponge, Signer>(payload, side_key, root_trits, &mut curl)
}

#[test]
fn it_works() {
    let message = trits("ABCDEFGHIJKLMNOPQRSTUVWXYZ9ABCDEFGHIJKLMNOPQRSTUVWXYZ9");
    let side_key = trits(SIDE_KEY);
    let security: u8 = 1;
    let start = 1;
    let count = 4;
    let next_count = 2;
    for index in 0..count {
        let mut made = make(&message, security, start, count, next_count, index);
        match read(&mut made.payload, &side_key, &made.root) {
            Ok((s, len)) => assert_eq!(&made.payload[s + HASH_LENGTH..len], &message[..]),
            Err(e) => match e {
                MamError::InvalidSignature => panic!("Invalid Signature"),
                MamError::InvalidHash => panic!("Invalid Hash"),
                MamError::ArrayOutOfBounds => panic!("Array Out of Bounds"),
            },
        }
    }
}

#[test]
fn message_and_next_root_come_back() {
    let message = trits("IAMSOMEMESSAGE9HEARMEROARMYMESSAGETOTHEWORLDYOUHEATHEN");
    let side_key = trits(SIDE_KEY);
    let mut made = make(&message, 1, 1, 9, 4, 3);
    let (a, b) = read(&mut made.payload, &side_key, &made.root).unwrap();
    assert_eq!(&made.payload[a..a + HASH_LENGTH], &made.next[..]);
    assert_eq!(&made.payload[a + HASH_LENGTH..b], &message[..]);
    // index 3 and length 243 + 162 take 4 and 12 trits
    assert_eq!((a, b), (16, 16 + 243 + 162));
}

#[test]
fn every_security_comes_back() {
    let message = trits("SECURITY9LEVELS");
    let side_key = trits(SIDE_KEY);
    for security in 1..=3u8 {
        let mut made = make(&message, security, 0, 3, 1, 2);
        let (a, b) = read(&mut made.payload, &side_key, &made.root).unwrap();
        assert_eq!(&made.payload[a..a + HASH_LENGTH], &made.next[..]);
        assert_eq!(&made.payload[a + HASH_LENGTH..b], &message[..]);
    }
}

#[test]
fn an_empty_message_in_a_tree_of_one_comes_back() {
    let side_key = trits(SIDE_KEY);
    let mut made = make(&[], 1, 5, 1, 1, 0);
    assert_eq!(made.payload.len(), min_length(0, 0, 0, 1));
    let (a, b) = read(&mut made.payload, &side_key, &made.root).unwrap();
    assert_eq!(b - a, HASH_LENGTH);
    assert_eq!(&made.payload[a..b], &made.next[..]);
}

#[test]
fn all_leaves_lead_to_one_root() {
    let seed = trits(SEED);
    let addrs = addresses(&seed, 1, 4, 1);
    let expect = tree_root(&addrs);
    for index in 0..4 {
        let mut curl = Sponge::new();
        let hashes = path(&addrs, index);
        let got = root(&addrs[index * HASH_LENGTH..(index + 1) * HASH_LENGTH], &hashes, index, &mut curl);
        assert_eq!(got, expect);
    }
}

#[test]
fn leaves_lead_to_one_root_in_trees_of_any_size() {
    let seed = trits(SEED);
    let all = addresses(&seed, 3, 17, 1);
    for count in [1usize, 2, 3, 5, 6, 7, 8, 11, 16, 17] {
        let addrs = &all[..count * HASH_LENGTH];
        let expect = tree_root(addrs);
        for index in 0..count {
            let mut curl = Sponge::new();
            let hashes = path(addrs, index);
            assert_eq!(hashes.len(), siblings_count(count) * HASH_LENGTH);
            let got = root(&addrs[index * HASH_LENGTH..(index + 1) * HASH_LENGTH], &hashes, index, &mut curl);
            assert_eq!(got, expect, "tree of {}, leaf {}", count, index);
        }
    }
}

#[test]
fn a_tree_of_one_leaf_is_its_leaf() {
    let seed = trits(SEED);
    let addrs = addresses(&seed, 0, 1, 1);
    assert_eq!(siblings_count(1), 0);
    assert_eq!(path(&addrs, 0), Vec::<Trit>::new());
    let mut curl = Sponge::new();
    assert_eq!(root(&addrs, &[], 0, &mut curl), addrs);
}

#[test]
fn siblings_are_the_nodes_beside_the_path() {
    let seed = trits(SEED);
    let addrs = addresses(&seed, 0, 3, 1);
    let leaf = |i: usize| addrs[i * HASH_LENGTH..(i + 1) * HASH_LENGTH].to_vec();
    let hash = |left: &[Trit], right: &[Trit]| {
        let mut curl = Sponge::new();
        curl.absorb(left);
        curl.absorb(right);
        curl.rate().to_vec()
    };
    let zero = vec![0 as Trit; HASH_LENGTH];
    // leaf 0: leaf 1, then the node over leaf 2 and nothing
    let mut expect = leaf(1);
    expect.extend(hash(&leaf(2), &zero));
    assert_eq!(path(&addrs, 0), expect);
    // leaf 2: nothing, then the node over leaves 0 and 1
    let mut expect = zero.clone();
    expect.extend(hash(&leaf(0), &leaf(1)));
    assert_eq!(path(&addrs, 2), expect);
    assert_eq!(tree_root(&addrs), hash(&hash(&leaf(0), &leaf(1)), &hash(&leaf(2), &zero)));
    // a tree of two: the node over nothing at all is the zero word
    let two = &addrs[..2 * HASH_LENGTH];
    assert_eq!(path(two, 1), leaf(0));
}

#[test]
fn root_takes_the_side_from_the_bits_of_the_index() {
    let a = trits("A").repeat(81);
    let b = trits("B").repeat(81);
    let c = trits("C").repeat(81);
    let hash = |left: &[Trit], right: &[Trit]| {
        let mut curl = Sponge::new();
        curl.absorb(left);
        curl.absorb(right);
        curl.rate().to_vec()
    };
    let mut hashes = b.clone();
    hashes.extend_from_slice(&c);
    let mut curl = Sponge::new();
    assert_eq!(root(&a, &hashes, 0, &mut curl), hash(&hash(&a, &b), &c));
    assert_eq!(root(&a, &hashes, 1, &mut curl), hash(&hash(&b, &a), &c));
    assert_eq!(root(&a, &hashes, 2, &mut curl), hash(&c, &hash(&a, &b)));
    assert_eq!(root(&a, &hashes, 3, &mut curl), hash(&c, &hash(&b, &a)));
    assert_eq!(root(&a, &hashes, 4, &mut curl), hash(&hash(&a, &b), &c));
    assert_eq!(curl.state().to_vec(), vec![0 as Trit; 729]);
}

#[test]
fn siblings_count_is_the_height_of_the_tree() {
    let expect = [(0usize, 0usize), (1, 0), (2, 1), (3, 2), (4, 2), (5, 3), (8, 3), (9, 4), (11, 4), (16, 4), (17, 5)];
    for (n, height) in expect {
        assert_eq!(siblings_count(n), height, "for {}", n);
    }
    assert_eq!(siblings_count(usize::MAX), 64);
}

#[test]
fn key_moves_the_seed_on_by_the_index() {
    let seed = trits(SEED);
    let mut curl = Sponge::new();
    let mut by_key = vec![0 as Trit; KEY_LENGTH];
    key::<Sponge, Signer>(&seed, 5, 1, &mut by_key, &mut curl);
    let mut moved = seed.clone();
    mam::trits::add_assign(&mut moved, 5);
    let mut by_hand = vec![0 as Trit; KEY_LENGTH];
    curl.reset();
    Signer::subseed(&moved, 0, &mut by_hand[..HASH_LENGTH], &mut curl);
    curl.reset();
    Signer::key(&mut by_hand, 1, &mut curl);
    assert_eq!(by_key, by_hand);
    let mut other = vec![0 as Trit; KEY_LENGTH];
    key::<Sponge, Signer>(&seed, 6, 1, &mut other, &mut curl);
    assert_ne!(by_key, other);
}

#[test]
fn a_flipped_last_trit_is_an_invalid_signature() {
    let message = trits("IAMSOMEMESSAGE9HEARMEROARMYMESSAGETOTHEWORLDYOUHEATHEN");
    let side_key = trits(SIDE_KEY);
    let mut made = make(&message, 1, 1, 9, 4, 3);
    let last = made.payload.len() - 1;
    made.payload[last] = if made.payload[last] == 1 { -1 } else { made.payload[last] + 1 };
    assert_eq!(read(&mut made.payload, &side_key, &made.root), Err(MamError::InvalidSignature));
}

#[test]
fn a_flipped_trit_of_the_signature_is_an_invalid_signature() {
    let message = trits("TAMPERED");
    let side_key = trits(SIDE_KEY);
    let mut made = make(&message, 1, 1, 4, 2, 1);
    let at = made.payload.len() - 2 * HASH_LENGTH - 4 - 100;
    made.payload[at] = if made.payload[at] == 1 { -1 } else { made.payload[at] + 1 };
    assert_eq!(read(&mut made.payload, &side_key, &made.root), Err(MamError::InvalidSignature));
}

#[test]
fn a_flipped_trit_of_the_message_is_rejected() {
    let message = trits("TAMPERED");
    let side_key = trits(SIDE_KEY);
    let mut made = make(&message, 1, 1, 4, 2, 1);
    made.payload[300] = if made.payload[300] == 1 { -1 } else { made.payload[300] + 1 };
    let got = read(&mut made.payload, &side_key, &made.root);
    assert!(matches!(got, Err(MamError::InvalidHash) | Err(MamError::InvalidSignature)), "{:?}", got);
}

#[test]
fn another_side_key_is_rejected() {
    let message = trits("IAMSOMEMESSAGE9HEARMEROARMYMESSAGETOTHEWORLDYOUHEATHEN");
    let mut side_key = trits(SIDE_KEY);
    let mut made = make(&message, 1, 1, 9, 4, 3);
    side_key[0] = if side_key[0] == 1 { -1 } else { side_key[0] + 1 };
    let got = read(&mut made.payload, &side_key, &made.root);
    assert!(matches!(got, Err(MamError::InvalidHash) | Err(MamError::InvalidSignature)), "{:?}", got);
}

#[test]
fn another_root_is_rejected() {
    let message = trits("ROOTS");
    let side_key = trits(SIDE_KEY);
    let mut made = make(&message, 1, 1, 4, 2, 0);
    let got = read(&mut made.payload, &side_key, &made.next);
    assert!(matches!(got, Err(MamError::InvalidHash) | Err(MamError::InvalidSignature)), "{:?}", got);
}

#[test]
fn a_payload_cut_short_is_out_of_bounds() {
    let message = trits("IAMSOMEMESSAGE9HEARMEROARMYMESSAGETOTHEWORLDYOUHEATHEN");
    let side_key = trits(SIDE_KEY);
    let made = make(&message, 1, 1, 9, 4, 3);
    // nothing at all, a lone prefix, and a payload that ends before its nonce does
    for length in [0usize, 3, 16, 16 + 243 + 162 + 80] {
        let mut cut = made.payload[..length].to_vec();
        assert_eq!(read(&mut cut, &side_key, &made.root), Err(MamError::ArrayOutOfBounds), "at {}", length);
    }
}

#[test]
fn a_payload_without_all_of_its_signature_or_hashes_is_an_invalid_signature() {
    let message = trits("IAMSOMEMESSAGE9HEARMEROARMYMESSAGETOTHEWORLDYOUHEATHEN");
    let side_key = trits(SIDE_KEY);
    let made = make(&message, 1, 1, 9, 4, 3);
    for length in [16 + 243 + 162 + 81, 16 + 243 + 162 + 81 + 100, made.payload.len() - 1] {
        let mut cut = made.payload[..length].to_vec();
        assert_eq!(read(&mut cut, &side_key, &made.root), Err(MamError::InvalidSignature), "at {}", length);
    }
}

#[test]
fn a_length_below_a_root_is_out_of_bounds() {
    let side_key = trits(SIDE_KEY);
    let mut payload = vec![0 as Trit; 2000];
    mam::pascal::encode(0, &mut payload[..4]);
    mam::pascal::encode(242, &mut payload[4..4 + encoded_length(242)]);
    assert_eq!(read(&mut payload, &side_key, &[0; 243]), Err(MamError::ArrayOutOfBounds));
}

#[test]
fn a_hash_without_weight_is_an_invalid_hash() {
    // a payload of zeros after a frame: whether its hash has weight is up to the
    // sponge, and with this one it has none
    let side_key = trits(SIDE_KEY);
    let mut payload = vec![0 as Trit; 4 + 8 + 243 + 81 + KEY_LENGTH + 4];
    mam::pascal::encode(0, &mut payload[..4]);
    mam::pascal::encode(243, &mut payload[4..12]);
    let before = payload.clone();
    assert_eq!(read(&mut payload, &side_key, &[0; 243]), Err(MamError::InvalidHash));
    // the frame stands, what follows the nonce was not touched
    assert_eq!(&payload[..12], &before[..12]);
    assert_eq!(&payload[12 + 243 + 81..], &before[12 + 243 + 81..]);
}

#[test]
fn create_is_a_function_of_its_inputs() {
    let message = trits("DETERMINISM");
    let first = make(&message, 2, 2, 3, 1, 1);
    let second = make(&message, 2, 2, 3, 1, 1);
    assert_eq!(first.payload, second.payload);
}

#[test]
fn create_leaves_what_follows_the_payload_and_resets_the_sponges() {
    let seed = trits(SEED);
    let side_key = trits(SIDE_KEY);
    let message = trits("SHORT");
    let root_trits = trits("R").repeat(81);
    let next = trits("N").repeat(81);
    let length = min_length(message.len(), 0, 0, 1);
    let mut payload = vec![1 as Trit; length + 7];
    let mut c1 = Sponge::new();
    let mut c2 = Sponge::new();
    let mut bc = Lanes::new();
    c1.absorb(&message);
    c2.absorb(&seed);
    let written = create::<Sponge, Lanes, Search, Signer>(
        &seed, &message, &side_key, &root_trits, &[], &next, 0, 0, 1, &mut payload, &mut c1, &mut c2, &mut bc,
    );
    assert_eq!(written, Some(length));
    assert_eq!(&payload[length..], &[1 as Trit; 7]);
    assert_eq!(c1.state().to_vec(), vec![0 as Trit; 729]);
    assert_eq!(c2.state().to_vec(), vec![0 as Trit; 729]);
    // sponges that were in use give the same payload as fresh ones
    let mut again = vec![1 as Trit; length + 7];
    let mut d1 = Sponge::new();
    let mut d2 = Sponge::new();
    create::<Sponge, Lanes, Search, Signer>(
        &seed, &message, &side_key, &root_trits, &[], &next, 0, 0, 1, &mut again, &mut d1, &mut d2, &mut bc,
    );
    assert_eq!(payload, again);
}

#[test]
fn create_without_a_nonce_stops_after_the_message() {
    let seed = trits(SEED);
    let side_key = trits(SIDE_KEY);
    let message = trits("SHORT");
    let root_trits = trits("R").repeat(81);
    let next = trits("N").repeat(81);
    let length = min_length(message.len(), 0, 0, 1);
    let mut payload = vec![1 as Trit; length];
    let mut c1 = Sponge::new();
    let mut c2 = Sponge::new();
    let mut bc = Lanes::new();
    let written = create::<Sponge, Lanes, NoSearch, Signer>(
        &seed, &message, &side_key, &root_trits, &[], &next, 0, 0, 1, &mut payload, &mut c1, &mut c2, &mut bc,
    );
    assert_eq!(written, None);
    let body_end = 4 + encoded_length((243 + message.len()) as isize) + 243 + message.len();
    assert_eq!(&payload[body_end..], &vec![1 as Trit; length - body_end][..]);
    // the body is there, masked: unmasking it with the same sponge gives it back
    let mut curl = Sponge::new();
    curl.absorb(&side_key);
    curl.absorb(&root_trits);
    let start = body_end - 243 - message.len();
    curl.absorb(&payload[..start]);
    unmask_slice(&mut payload[start..body_end], &mut curl);
    assert_eq!(&payload[start..start + 243], &next[..]);
    assert_eq!(&payload[start + 243..body_end], &message[..]);
}

#[test]
fn min_length_adds_up_the_layout() {
    // 4 for the index, 12 for 243 + 162, the root, the message, the nonce, one key,
    // 4 for the count of 4 hashes and the hashes
    assert_eq!(min_length(162, 4 * 243, 3, 1), 4 + 12 + 243 + 162 + 81 + 19683 + 4 + 972);
    assert_eq!(min_length(0, 0, 0, 3), 4 + 8 + 243 + 81 + 3 * 19683 + 4);
    assert_eq!(min_length(0, 0, 0, 1), 4 + encoded_length(243) + 243 + 81 + KEY_LENGTH + encoded_length(0));
}

#[test]
fn the_frame_is_left_in_the_clear() {
    let message = trits("FRAME");
    let made = make(&message, 1, 1, 4, 2, 2);
    assert_eq!(mam::pascal::decode(&made.payload), (2, 4));
    assert_eq!(mam::pascal::decode(&made.payload[4..]), ((243 + message.len()) as isize, 8));
}

#[test]
fn unmasking_gives_back_what_was_masked() {
    let payload = trits("AAMESSAGEFORYOU9AMESSAGEFORYOU9AMESSAGEFORYOU9AMESSAGEFORYOU9AMESSAGEFORYOU9AMESSAGEFORYOU9AMESSAGEFORYOU9AMESSAGEFORYOU9AMESSAGEFORYOU9AMESSAGEFORYOU9AMESSAGEFORYOU9AMESSAGEFORYOU9AMESSAGEFORYOU9AMESSAGEFORYOU9AMESSAGEFORYOU9AMESSAGEFORYOU9AMESSAGEFORYOU9AMESSAGEFORYOU9AMESSAGEFORYOU9AMESSAGEFORYOU9MESSAGEFORYOU9");
    for length in [0usize, 1, 80, 243, 244, 486, payload.len()] {
        let mut curl = Sponge::new();
        curl.absorb(&trits("MYMERKLEROOTHASH"));
        let mut cipher = payload[..length].to_vec();
        mask_slice(&mut cipher, &mut curl);
        let after_mask = curl.state().to_vec();
        if length > 0 {
            assert_ne!(cipher, &payload[..length]);
        }
        let mut curl = Sponge::new();
        curl.absorb(&trits("MYMERKLEROOTHASH"));
        unmask_slice(&mut cipher, &mut curl);
        assert_eq!(cipher, &payload[..length]);
        assert_eq!(curl.state().to_vec(), after_mask);
    }
}

#[test]
fn masking_adds_the_rate_and_absorbs_what_is_masked() {
    let plain = trits("PLAINTEXT");
    let mut curl = Sponge::new();
    curl.absorb(&trits("KEY"));
    let rate = curl.rate().to_vec();
    let mut cipher = plain.clone();
    mask_slice(&mut cipher, &mut curl);
    for i in 0..plain.len() {
        assert_eq!(cipher[i], trit_sum(plain[i], rate[i]));
    }
    let mut expect = Sponge::new();
    expect.absorb(&trits("KEY"));
    expect.absorb(&cipher);
    assert_eq!(curl.state().to_vec(), expect.state().to_vec());
}

#[test]
fn it_can_unmask() {
    let payload = trits("AAMESSAGEFORYOU9AMESSAGEFORYOU9AMESSAGEFORYOU9AMESSAGEFORYOU9AMESSAGEFORYOU9AMESSAGEFORYOU9AMESSAGEFORYOU9AMESSAGEFORYOU9AMESSAGEFORYOU9AMESSAGEFORYOU9AMESSAGEFORYOU9AMESSAGEFORYOU9AMESSAGEFORYOU9AMESSAGEFORYOU9AMESSAGEFORYOU9AMESSAGEFORYOU9AMESSAGEFORYOU9AMESSAGEFORYOU9AMESSAGEFORYOU9AMESSAGEFORYOU9MESSAGEFORYOU9");
    let auth_id = trits("MYMERKLEROOTHASH");
    let index: usize = 5;
    let mut curl = Sponge::new();
    let mut keys = auth_id.clone();
    mam::trits::add_assign(&mut keys, index as isize);
    let mut cipher = payload.clone();
    mam::mask::mask::<Sponge>(&mut cipher, &keys, &mut curl);
    curl.reset();
    mam::mask::unmask::<Sponge>(&mut cipher, &keys, &mut curl);
    assert_eq!(payload, cipher);
}

#[test]
fn it_does_not_panic() {
    let seed = trits(SEED);
    let start = 1;
    let count = 9;
    let security = 1;
    let addrs = addresses(&seed, start, count, security);
    let expect = tree_root(&addrs);
    for index in 0..count {
        let mut curl = Sponge::new();
        let hashes = path(&addrs, index);
        let got = root(&addrs[index * HASH_LENGTH..(index + 1) * HASH_LENGTH], &hashes, index, &mut curl);
        assert_eq!(got, expect);
    }
}

#[test]
fn id_is_what_the_sponge_gives_after_side_key_and_root() {
    let side_key = trits(SIDE_KEY);
    let root_trits = trits("R").repeat(81);
    let mut curl = Sponge::new();
    let mut out = vec![0 as Trit; HASH_LENGTH];
    id(&side_key, &root_trits, &mut out, &mut curl);
    let mut expect = Sponge::new();
    expect.absorb(&side_key);
    expect.absorb(&root_trits);
    assert_eq!(out, expect.rate().to_vec());
    assert_eq!(curl.state().to_vec(), vec![0 as Trit; 729]);
}

#[test]
fn checksum_security_is_the_largest_part_that_sums_to_zero() {
    let zeros = vec![0 as Trit; 243];
    assert_eq!(checksum_security(&zeros), 3);
    let mut hash = zeros.clone();
    hash[242] = 1;
    assert_eq!(checksum_security(&hash), 2);
    hash[100] = -1;
    assert_eq!(checksum_security(&hash), 3);
    hash[0] = 1;
    assert_eq!(checksum_security(&hash), 2);
    hash[242] = 0;
    assert_eq!(checksum_security(&hash), 3);
    hash[1] = 1;
    assert_eq!(checksum_security(&hash), 0);
    let mut hash = zeros.clone();
    hash[81] = 1;
    assert_eq!(checksum_security(&hash), 1);
    hash[200] = 1;
    assert_eq!(checksum_security(&hash), 1);
    hash[80] = 1;
    assert_eq!(checksum_security(&hash), 0);
}

#[test]
fn read_frame_reads_index_length_and_start() {
    let message = trits("IAMSOMEMESSAGE9HEARMEROARMYMESSAGETOTHEWORLDYOUHEATHEN");
    let made = make(&message, 1, 1, 9, 4, 3);
    assert_eq!(read_frame(&made.payload), Some((3, 243 + 162, 16)));
    assert_eq!(read_frame(&made.payload[..16]), Some((3, 243 + 162, 16)));
    assert_eq!(read_frame(&made.payload[..15]), None);
    assert_eq!(read_frame(&[]), None);
    assert_eq!(read_frame(&[0, 0, 0, 0, 0, 0]), None);
    // a negative index and a negative length are read as they stand
    let mut frame = vec![0 as Trit; 8];
    mam::pascal::encode(-2, &mut frame[..4]);
    mam::pascal::encode(-1, &mut frame[4..]);
    assert_eq!(read_frame(&frame), Some((-2, -1, 8)));
}

#[test]
fn read_branch_wants_all_the_hashes() {
    let mut path = vec![0 as Trit; 4 + 2 * HASH_LENGTH];
    mam::pascal::encode(2, &mut path[..4]);
    assert_eq!(read_branch(&path), Some((2, 4)));
    assert_eq!(read_branch(&path[..4 + 2 * HASH_LENGTH - 1]), None);
    path.push(1);
    assert_eq!(read_branch(&path), Some((2, 4)));
    mam::pascal::encode(-2, &mut path[..4]);
    assert_eq!(read_branch(&path), None);
    mam::pascal::encode(0, &mut path[..4]);
    assert_eq!(read_branch(&path), Some((0, 4)));
    assert_eq!(read_branch(&path[..4]), Some((0, 4)));
    assert_eq!(read_branch(&path[..3]), None);
}

#[test]
fn leads_to_root_follows_the_hashes_after_their_number() {
    let seed = trits(SEED);
    let addrs = addresses(&seed, 1, 5, 1);
    let expect = tree_root(&addrs);
    let hashes = path(&addrs, 3);
    let mut named = vec![0 as Trit; encoded_length(3)];
    mam::pascal::encode(3, &mut named);
    named.extend_from_slice(&hashes);
    let leaf = &addrs[3 * HASH_LENGTH..4 * HASH_LENGTH];
    let mut curl = Sponge::new();
    curl.absorb(&seed);
    assert!(leads_to_root(leaf, &named, 3, &expect, &mut curl));
    assert_eq!(curl.state().to_vec(), vec![0 as Trit; 729]);
    // what follows the hashes does not count
    named.extend_from_slice(&[1, -1, 0]);
    assert!(leads_to_root(leaf, &named, 3, &expect, &mut curl));
    // another index, another leaf, another root, fewer hashes than named
    assert!(!leads_to_root(leaf, &named, 2, &expect, &mut curl));
    assert!(!leads_to_root(&addrs[..HASH_LENGTH], &named, 3, &expect, &mut curl));
    assert!(!leads_to_root(leaf, &named, 3, &addrs[..HASH_LENGTH], &mut curl));
    assert!(!leads_to_root(leaf, &named[..named.len() - 4], 3, &expect, &mut curl));
    assert!(!leads_to_root(leaf, &[], 3, &expect, &mut curl));
}

// The tree over `addrs` built level by level: a node is the hash of its two children,
// and the zero word where no leaf lies below it.
fn levels(addrs: &[Trit]) -> Vec<Vec<Vec<Trit>>> {
    let count = addrs.len() / HASH_LENGTH;
    let zero = vec![0 as Trit; HASH_LENGTH];
    let mut level: Vec<Vec<Trit>> = addrs.chunks(HASH_LENGTH).map(|a| a.to_vec()).collect();
    let mut all = vec![level.clone()];
    let mut span = 1;
    while span < count {
        let mut above = Vec::new();
        for pair in 0..(level.len() + 1) / 2 {
            let left = &level[2 * pair];
            let right = if 2 * pair + 1 < level.len() { &level[2 * pair + 1] } else { &zero };
            let mut curl = Sponge::new();
            curl.absorb(left);
            curl.absorb(right);
            above.push(curl.rate().to_vec());
        }
        level = above;
        all.push(level.clone());
        span *= 2;
    }
    all
}

#[test]
fn siblings_match_a_tree_built_in_full() {
    let seed = trits(SEED);
    let start = 3;
    let all = addresses(&seed, start, 17, 1);
    for (count, index) in [(11usize, 4usize), (17, 0), (17, 16), (6, 5), (2, 0)] {
        let addrs = &all[..count * HASH_LENGTH];
        let tree = levels(addrs);
        let zero = vec![0 as Trit; HASH_LENGTH];
        let hashes = path(addrs, index);
        assert_eq!(hashes.len(), (tree.len() - 1) * HASH_LENGTH);
        let mut at = index;
        for (rank, hash) in hashes.chunks(HASH_LENGTH).enumerate() {
            let beside = at ^ 1;
            let expect = tree[rank].get(beside).unwrap_or(&zero);
            assert_eq!(hash, &expect[..], "tree of {}, leaf {}, rank {}", count, index, rank);
            at /= 2;
        }
        assert_eq!(tree_root(addrs), tree[tree.len() - 1][0]);
    }
}

#[test]
fn lengths_are_those_of_the_format() {
    assert_eq!(HASH_LENGTH, 243);
    assert_eq!(mam::trits::STATE_LENGTH, 729);
    assert_eq!(mam::trits::TRITS_PER_TRYTE, 3);
    assert_eq!(KEY_LENGTH, 81 * 243);
    assert_eq!(mam::iss::DIGEST_LENGTH, 243);
    assert_eq!(mam::iss::ADDRESS_LENGTH, 243);
    assert_eq!(mam::iss::CHECKSUM_LENGTH, 81);
    assert_eq!(mam::mam::MESSAGE_NONCE_LENGTH, 81);
}

#[test]
fn the_operations_are_at_the_root_of_the_crate() {
    assert_eq!(mam::min_length(0, 0, 0, 1), min_length(0, 0, 0, 1));
    let _ = mam::create::<Sponge, Lanes, Search, Signer>;
    let _ = mam::parse::<Sponge, Signer>;
    let _ = mam::id::<Sponge>;
    let _ = mam::errors::MamError::ArrayOutOfBounds;
}

#[test]
fn what_follows_a_payload_does_not_keep_it_from_being_read() {
    let message = trits("IAMSOMEMESSAGE9HEARMEROARMYMESSAGETOTHEWORLDYOUHEATHEN");
    let side_key = trits(SIDE_KEY);
    let mut made = make(&message, 1, 1, 9, 4, 3);
    made.payload.extend_from_slice(&[0, 0]);
    let (a, b) = read(&mut made.payload, &side_key, &made.root).unwrap();
    assert_eq!(&made.payload[a..a + HASH_LENGTH], &made.next[..]);
    assert_eq!(&made.payload[a + HASH_LENGTH..b], &message[..]);
}
