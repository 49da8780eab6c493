//! Probabilistic membership filter over the keys of a segment file:
//! "possibly present" or "definitely absent", with no false negatives.
//!
//! Keys are double-hashed (two independent 64-bit FNV-1a states) into a
//! fixed number of bit positions; every position of every inserted key is
//! set, and a lookup reports possible presence only when all its positions
//! are set. A key that was inserted therefore always reports present.

use vstd::prelude::*;

verus! {

/// Words the largest filter may hold; caps the bit array so position
/// arithmetic stays well inside `u64`.
pub const FILTER_MAX_WORDS: usize = 1048576;

/// Number of bit positions probed per key.
pub const FILTER_NUM_HASHES: u64 = 3;

/// One FNV-1a step: fold one byte into the hash state.
pub open spec fn spec_fnv_step(h: u64, b: u8) -> u64 {
    (h ^ (b as u64)).wrapping_mul(0x100000001b3u64)
}

/// FNV-1a over a byte sequence from a given state.
pub open spec fn spec_fnv(data: Seq<u8>, h: u64) -> u64
    decreases data.len(),
{
    if data.len() == 0 {
        h
    } else {
        spec_fnv(data.subrange(1, data.len() as int), spec_fnv_step(h, data[0]))
    }
}

/// First hash of a key: FNV-1a from the standard offset basis.
pub open spec fn spec_hash1(k: Seq<u8>) -> u64 {
    spec_fnv(k, 0xcbf29ce484222325u64)
}

/// Second hash of a key: FNV-1a from an independent basis.
pub open spec fn spec_hash2(k: Seq<u8>) -> u64 {
    spec_fnv(k, 0x84222325cbf29ce4u64)
}

/// The bit position the `i`th probe of a key lands on, in a filter of
/// `words` 64-bit words.
pub open spec fn spec_probe(k: Seq<u8>, i: u64, words: nat) -> nat
    recommends
        words > 0,
{
    (spec_hash1(k).wrapping_add(i.wrapping_mul(spec_hash2(k))) as nat) % (words * 64)
}

/// Whether bit `idx` of the bit array is set.
pub open spec fn spec_bit(bits: Seq<u64>, idx: nat) -> bool {
    idx < bits.len() * 64 && (bits[(idx / 64) as int] >> (idx % 64) as u64) & 1u64 == 1u64
}

/// Whether the filter reports a key as possibly present: all its probe
/// positions are set.
pub open spec fn spec_contains(bits: Seq<u64>, k: Seq<u8>) -> bool {
    forall|i: u64| 0 <= i < FILTER_NUM_HASHES ==> spec_bit(bits, spec_probe(k, i, bits.len()))
}

/// Run FNV-1a over a key from a given state.
fn fnv(data: &[u8], seed: u64) -> (r: u64)
    ensures
        r == spec_fnv(data@, seed),
{
    let mut h = seed;
    let mut i: usize = 0;
    proof {
        assert(data@.subrange(0, data@.len() as int) =~= data@);
    }
    while i < data.len()
        invariant
            i <= data@.len(),
            spec_fnv(data@, seed) == spec_fnv(data@.subrange(i as int, data@.len() as int), h),
        decreases data@.len() - i,
    {
        let b = *vstd::slice::slice_index_get(data, i);
        proof {
            let sub = data@.subrange(i as int, data@.len() as int);
            assert(sub[0] == data@[i as int]);
            assert(sub.subrange(1, sub.len() as int) =~= data@.subrange(
                i + 1,
                data@.len() as int,
            ));
        }
        h = (h ^ (b as u64)).wrapping_mul(0x100000001b3u64);
        i = i + 1;
    }
    proof {
        assert(data@.subrange(i as int, data@.len() as int).len() == 0);
    }
    h
}

/// Membership filter of one segment: a fixed bit array.
pub struct BloomFilter {
    bits: Vec<u64>,
}

impl View for BloomFilter {
    type V = Seq<u64>;

    closed spec fn view(&self) -> Seq<u64> {
        self.bits@
    }
}

impl BloomFilter {
    /// The bit array is non-empty and small enough for position arithmetic.
    pub open spec fn wf(&self) -> bool {
        0 < self@.len() <= FILTER_MAX_WORDS
    }

    /// Create a cleared filter able to hold about `n` keys at ten bits per
    /// key (capped, so an oversized request degrades the false-positive
    /// rate, never correctness).
    pub fn new(n: usize) -> (r: BloomFilter)
        ensures
            r.wf(),
            forall|idx: nat| !spec_bit(r@, idx),
            r@.len() == if n / 6 + 1 <= FILTER_MAX_WORDS as int {
                n / 6 + 1
            } else {
                FILTER_MAX_WORDS as int
            },
    {
        let words = if n / 6 + 1 <= FILTER_MAX_WORDS {
            n / 6 + 1
        } else {
            FILTER_MAX_WORDS
        };
        let mut bits: Vec<u64> = Vec::new();
        let mut i: usize = 0;
        while i < words
            invariant
                i <= words,
                bits@.len() == i,
                forall|j: int| 0 <= j < i ==> bits@[j] == 0u64,
            decreases words - i,
        {
            bits.push(0u64);
            i = i + 1;
        }
        let r = BloomFilter { bits };
        proof {
            assert forall|idx: nat| !spec_bit(r@, idx) by {
                if idx < r@.len() * 64 {
                    assert(r@[(idx / 64) as int] == 0u64);
                    let sh = (idx % 64) as u64;
                    assert((0u64 >> sh) & 1u64 == 0u64) by (bit_vector);
                }
            }
        }
        r
    }

    /// Rebuild a filter from its stored bit words (the segment-file read
    /// path).
    pub fn from_words(words: Vec<u64>) -> (r: BloomFilter)
        requires
            0 < words@.len() <= FILTER_MAX_WORDS,
        ensures
            r.wf(),
            r@ == words@,
    {
        BloomFilter { bits: words }
    }

    /// Borrow the filter's bit words (the segment-file write path).
    pub fn words(&self) -> (r: &Vec<u64>)
        ensures
            r@ == self@,
    {
        &self.bits
    }

    /// Number of bits in the filter.
    fn num_bits(&self) -> (r: u64)
        requires
            self.wf(),
        ensures
            r == self@.len() * 64,
            r > 0,
    {
        (self.bits.len() as u64) * 64
    }

    /// Insert a key: set all its probe positions. Every key inserted
    /// earlier still reports present afterwards (bits are only ever set),
    /// which is what rules out false negatives.
    pub fn insert(&mut self, key: &[u8])
        requires
            old(self).wf(),
        ensures
            final(self).wf(),
            final(self)@.len() == old(self)@.len(),
            spec_contains(final(self)@, key@),
            forall|k2: Seq<u8>| spec_contains(old(self)@, k2) ==> spec_contains(final(self)@, k2),
            forall|idx: nat| spec_bit(old(self)@, idx) ==> spec_bit(final(self)@, idx),
    {
        let h1 = fnv(key, 0xcbf29ce484222325u64);
        let h2 = fnv(key, 0x84222325cbf29ce4u64);
        let m = self.num_bits();
        let ghost words = self@.len();
        let mut i: u64 = 0;
        while i < FILTER_NUM_HASHES
            invariant
                i <= FILTER_NUM_HASHES,
                self.wf(),
                self@.len() == words,
                m == words * 64,
                m > 0,
                h1 == spec_hash1(key@),
                h2 == spec_hash2(key@),
                forall|j: u64| 0 <= j < i ==> spec_bit(self@, spec_probe(key@, j, words)),
                forall|idx: nat| spec_bit(old(self)@, idx) ==> spec_bit(self@, idx),
            decreases FILTER_NUM_HASHES - i,
        {
            let pos = h1.wrapping_add(i.wrapping_mul(h2)) % m;
            proof {
                assert(pos as nat == spec_probe(key@, i, words));
                assert(pos < m);
                assert(pos / 64 < words) by (nonlinear_arith)
                    requires
                        pos < words * 64,
                        words > 0,
                {}
            }
            let w = (pos / 64) as usize;
            let b = pos % 64;
            let ghost oldbits = self@;
            let word = self.bits[w];
            let updated = word | (1u64 << b);
            self.bits.set(w, updated);
            proof {
                assert(b < 64);
                assert(((word | (1u64 << b)) >> b) & 1u64 == 1u64) by (bit_vector)
                    requires
                        b < 64u64,
                {}
                assert forall|c: u64| c < 64 && c != b implies ((updated >> c) & 1u64) == ((word
                    >> c) & 1u64) by {
                    assert(((word | (1u64 << b)) >> c) & 1u64 == (word >> c) & 1u64)
                        by (bit_vector)
                        requires
                            c < 64u64,
                            c != b,
                            b < 64u64,
                    {}
                }
                assert forall|idx: nat| spec_bit(oldbits, idx) implies spec_bit(self@, idx) by {
                    if (idx / 64) as int == w {
                        assert(((idx % 64) as u64) < 64);
                        if ((idx % 64) as u64) != b {
                            assert(((updated >> (idx % 64) as u64) & 1u64) == ((word >> (idx
                                % 64) as u64) & 1u64));
                        }
                    } else {
                        assert(self@[(idx / 64) as int] == oldbits[(idx / 64) as int]);
                    }
                }
                assert(spec_bit(self@, (w * 64 + b) as nat)) by {
                    assert(((w * 64 + b) as nat) / 64 == w && ((w * 64 + b) as nat) % 64
                        == b) by (nonlinear_arith)
                        requires
                            b < 64u64,
                            w >= 0,
                    {}
                }
                assert((pos / 64) * 64 + pos % 64 == pos) by (nonlinear_arith);
                assert(spec_bit(self@, pos as nat));
                assert forall|j: u64| 0 <= j < i + 1 implies spec_bit(
                    self@,
                    spec_probe(key@, j, words),
                ) by {
                    if j < i {
                        assert(spec_bit(oldbits, spec_probe(key@, j, words)));
                    }
                }
            }
            i = i + 1;
        }
    }

    /// Report whether a key is possibly present; a `false` answer is
    /// definitive absence.
    pub fn contains(&self, key: &[u8]) -> (r: bool)
        requires
            self.wf(),
        ensures
            r == spec_contains(self@, key@),
    {
        let h1 = fnv(key, 0xcbf29ce484222325u64);
        let h2 = fnv(key, 0x84222325cbf29ce4u64);
        let m = self.num_bits();
        let ghost words = self@.len();
        let mut i: u64 = 0;
        while i < FILTER_NUM_HASHES
            invariant
                i <= FILTER_NUM_HASHES,
                self.wf(),
                self@.len() == words,
                m == words * 64,
                m > 0,
                h1 == spec_hash1(key@),
                h2 == spec_hash2(key@),
                forall|j: u64| 0 <= j < i ==> spec_bit(self@, spec_probe(key@, j, words)),
            decreases FILTER_NUM_HASHES - i,
        {
            let pos = h1.wrapping_add(i.wrapping_mul(h2)) % m;
            proof {
                assert(pos as nat == spec_probe(key@, i, words));
                assert(pos / 64 < words) by (nonlinear_arith)
                    requires
                        pos < words * 64,
                        words > 0,
                {}
                assert((pos / 64) * 64 + pos % 64 == pos) by (nonlinear_arith);
            }
            let w = (pos / 64) as usize;
            let b = pos % 64;
            let word = self.bits[w];
            if (word >> b) & 1u64 != 1u64 {
                proof {
                    assert(!spec_bit(self@, pos as nat));
                    assert(spec_probe(key@, i, words) == pos as nat);
                    assert(!spec_contains(self@, key@));
                }
                return false;
            }
            proof {
                assert(spec_bit(self@, pos as nat));
            }
            i = i + 1;
        }
        true
    }
}

} // verus!
