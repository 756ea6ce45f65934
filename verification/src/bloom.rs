//! The bloom filter guarding SSTable reads.
//!
//! A bit array with `k` probe positions per key, derived from a double-hash
//! scheme over an FNV-1a pair.  Membership tests never report a stored key
//! as absent; unrelated keys may collide at the configured rate.

use vstd::prelude::*;

verus! {

/// FNV-1a offset basis for the first hash.
pub const FNV_OFFSET: u64 = 0xcbf29ce484222325;

/// FNV-1a prime.
pub const FNV_PRIME: u64 = 0x100000001b3;

/// Seed of the second hash of the double-hash scheme.
pub const SECOND_SEED: u64 = 0x9e3779b97f4a7c15;

/// One FNV-1a step: fold a byte into the accumulator.
pub open spec fn spec_fnv_step(acc: u64, byte: u8) -> u64 {
    (acc ^ byte as u64).wrapping_mul(FNV_PRIME)
}

/// FNV-1a over a byte sequence, starting from `acc`.
pub open spec fn spec_fnv(s: Seq<u8>, acc: u64) -> u64
    decreases s.len(),
{
    if s.len() == 0 {
        acc
    } else {
        spec_fnv(s.skip(1), spec_fnv_step(acc, s[0]))
    }
}

/// The bit a key probes on its `i`-th test, for a filter of `m` bits.
pub open spec fn spec_probe(key: Seq<u8>, i: u64, m: u64) -> int
    recommends
        m > 0,
{
    spec_fnv(key, FNV_OFFSET).wrapping_add(
        i.wrapping_mul(spec_fnv(key, SECOND_SEED) | 1),
    ) as int % m as int
}

/// Probabilistic set of keys: never reports a stored key absent.
pub struct BloomFilter {
    /// The bit array, 64 bits to the word.
    pub words: Vec<u64>,
    /// Number of usable bits; probes are taken modulo this.
    pub m: u64,
    /// Number of probes per key.
    pub k: u64,
    /// The keys stored so far.
    pub keys: Ghost<Set<Seq<u8>>>,
}

impl BloomFilter {
    /// Whether bit `b` of the array is set.
    pub open spec fn spec_bit(self, b: int) -> bool {
        self.words@[b / 64] & (1u64 << (b % 64) as u64) != 0
    }

    /// Every probe of every stored key is set, and the array covers `m` bits.
    pub open spec fn wf(self) -> bool {
        &&& self.m > 0
        &&& self.m <= 0x1800_0000
        &&& self.words@.len() == (self.m + 63) / 64
        &&& forall|key: Seq<u8>, i: u64|
            self.keys@.contains(key) && i < self.k ==> self.spec_bit(
                #[trigger] spec_probe(key, i, self.m),
            )
    }

    /// Size a filter for `expected_items` keys at a false-positive target of
    /// `fp_per_mille` (thousandths).  The geometry follows the classic
    /// formulas in integer arithmetic: `bits_per_key` is `1.443·log2(1/p)`
    /// rounded up, `k` is `0.693·bits_per_key`, with at least one bit and
    /// one probe; the expected count is capped at 2^24 items.
    pub fn new(expected_items: usize, fp_per_mille: u64) -> (f: BloomFilter)
        ensures
            f.wf(),
            f.keys@ == Set::<Seq<u8>>::empty(),
    {
        let p = if fp_per_mille == 0 {
            1u64
        } else if fp_per_mille > 1000 {
            1000u64
        } else {
            fp_per_mille
        };
        // Smallest t with 2^t · p ≥ 1000, i.e. t = ceil(log2(1000/p)).
        let mut t: u64 = 0;
        let mut reach: u64 = p;
        while reach < 1000 && t < 16
            invariant
                1 <= reach <= 2000,
                t <= 16,
            decreases 16 - t,
    {
            reach = reach * 2;
            t = t + 1;
        }
        let bits_per_key: u64 = (1443 * t) / 1000 + 1;
        let k_raw = (693 * bits_per_key) / 1000;
        let k = if k_raw == 0 {
            1u64
        } else {
            k_raw
        };
        let mut n: u64 = expected_items as u64;
        if n == 0 {
            n = 1;
        }
        if n > 0x100_0000 {
            n = 0x100_0000;
        }
        assert(bits_per_key <= 24);
        assert(1 <= n * bits_per_key <= 0x100_0000 * 24) by (nonlinear_arith)
            requires
                1 <= n <= 0x100_0000 && 1 <= bits_per_key <= 24,
        ;
        let m: u64 = n * bits_per_key;
        let words_len: u64 = (m + 63) / 64;
        let mut words: Vec<u64> = Vec::new();
        let mut i: u64 = 0;
        while i < words_len
            invariant
                words@.len() == i,
                i <= words_len,
                words_len <= 0x10_0000_0000,
            decreases words_len - i,
        {
            words.push(0);
            i = i + 1;
        }
        BloomFilter { words, m, k, keys: Ghost(Set::empty()) }
    }

    /// Store a key: set its `k` probe bits.
    pub fn insert(&mut self, key: &Vec<u8>)
        requires
            old(self).wf(),
        ensures
            final(self).wf(),
            final(self).keys@ == old(self).keys@.insert(key@),
            final(self).m == old(self).m,
            final(self).k == old(self).k,
    {
        let h1 = fnv_hash(key, FNV_OFFSET);
        let h2 = fnv_hash(key, SECOND_SEED) | 1;
        let ghost key_view = key@;
        let mut i: u64 = 0;
        while i < self.k
            invariant
                self.m == old(self).m,
                self.k == old(self).k,
                self.keys@ == old(self).keys@,
                self.m > 0,
                self.m <= 0x1800_0000,
                self.words@.len() == (self.m + 63) / 64,
                h1 == spec_fnv(key_view, FNV_OFFSET),
                h2 == (spec_fnv(key_view, SECOND_SEED) | 1),
                i <= self.k,
                forall|kk: Seq<u8>, j: u64|
                    self.keys@.contains(kk) && j < self.k ==> self.spec_bit(
                        #[trigger] spec_probe(kk, j, self.m),
                    ),
                forall|j: u64|
                    j < i ==> self.spec_bit(#[trigger] spec_probe(key_view, j, self.m)),
            decreases self.k - i,
        {
            let probe = h1.wrapping_add(i.wrapping_mul(h2)) % self.m;
            let word_idx = (probe / 64) as usize;
            let bit_idx = probe % 64;
            let ghost pre_words = self.words@;
            let w = self.words[word_idx];
            let updated = w | (1u64 << bit_idx);
            self.words.set(word_idx, updated);
            proof {
                assert(probe as int == spec_probe(key_view, i, self.m));
                lemma_or_sets_bit(w, bit_idx);
                assert(self.spec_bit(probe as int));
                assert forall|kk: Seq<u8>, j: u64|
                    self.keys@.contains(kk) && j < self.k implies self.spec_bit(
                    #[trigger] spec_probe(kk, j, self.m),
                ) by {
                    let b = spec_probe(kk, j, self.m);
                    if b / 64 == word_idx as int {
                        lemma_or_preserves_bits(w, 1u64 << bit_idx, (b % 64) as u64);
                    }
                }
                assert forall|j: u64|
                    j < i + 1 implies self.spec_bit(
                    #[trigger] spec_probe(key_view, j, self.m),
                ) by {
                    if j < i {
                        let b = spec_probe(key_view, j, self.m);
                        if b / 64 == word_idx as int {
                            lemma_or_preserves_bits(w, 1u64 << bit_idx, (b % 64) as u64);
                        }
                    }
                }
            }
            i = i + 1;
        }
        proof {
            self.keys@ = self.keys@.insert(key_view);
        }
    }

    /// Whether the key might be stored.  A stored key always answers true;
    /// an unrelated key may collide, at the configured rate.
    pub fn contains(&self, key: &Vec<u8>) -> (r: bool)
        requires
            self.wf(),
        ensures
            self.keys@.contains(key@) ==> r,
            r == (forall|i: u64|
                i < self.k ==> self.spec_bit(#[trigger] spec_probe(key@, i, self.m))),
    {
        let h1 = fnv_hash(key, FNV_OFFSET);
        let h2 = fnv_hash(key, SECOND_SEED) | 1;
        let mut i: u64 = 0;
        while i < self.k
            invariant
                self.wf(),
                h1 == spec_fnv(key@, FNV_OFFSET),
                h2 == (spec_fnv(key@, SECOND_SEED) | 1),
                i <= self.k,
                forall|j: u64| j < i ==> self.spec_bit(#[trigger] spec_probe(key@, j, self.m)),
            decreases self.k - i,
        {
            let probe = h1.wrapping_add(i.wrapping_mul(h2)) % self.m;
            let word_idx = (probe / 64) as usize;
            let bit_idx = probe % 64;
            proof {
                assert(probe as int == spec_probe(key@, i, self.m));
            }
            if self.words[word_idx] & (1u64 << bit_idx) == 0 {
                proof {
                    assert(!self.spec_bit(probe as int));
                }
                return false;
            }
            i = i + 1;
        }
        true
    }
}

/// Setting a bit sets it.
proof fn lemma_or_sets_bit(w: u64, bit: u64)
    requires
        bit < 64,
    ensures
        (w | (1u64 << bit)) & (1u64 << bit) != 0,
{
    assert((w | (1u64 << bit)) & (1u64 << bit) != 0) by (bit_vector)
        requires
            bit < 64,
    ;
}

/// Bits already set survive an or.
proof fn lemma_or_preserves_bits(w: u64, mask: u64, bit: u64)
    requires
        bit < 64,
    ensures
        w & (1u64 << bit) != 0 ==> (w | mask) & (1u64 << bit) != 0,
{
    assert(w & (1u64 << bit) != 0 ==> (w | mask) & (1u64 << bit) != 0) by (bit_vector);
}

/// FNV-1a over the bytes of a key.
pub fn fnv_hash(key: &Vec<u8>, seed: u64) -> (h: u64)
    ensures
        h == spec_fnv(key@, seed),
{
    let mut acc = seed;
    let n = key.len();
    let mut i: usize = 0;
    proof {
        assert(key@.skip(0) =~= key@);
    }
    while i < n
        invariant
            n == key@.len(),
            i <= n,
            spec_fnv(key@, seed) == spec_fnv(key@.skip(i as int), acc),
        decreases n - i,
    {
        let b = key[i];
        proof {
            assert(key@.skip(i as int)[0] == key@[i as int]);
            assert(key@.skip(i as int).skip(1) =~= key@.skip(i as int + 1));
        }
        acc = (acc ^ b as u64).wrapping_mul(FNV_PRIME);
        i = i + 1;
    }
    acc
}

} // verus!
