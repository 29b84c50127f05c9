//! Bloom filters for set reconciliation.
//!
//! A round sends a peer a bloom filter over the keys of its eligible items;
//! the peer tests its own items against the filter and pushes back those
//! that test negative. The filter is deterministic: the same keys and the
//! same parameters give the same bits on every node, and a key that was
//! inserted always tests positive (no false negatives), so a negative test
//! proves the sender lacks the item. False positives only cost a missed
//! push, repaired by a later round.

use vstd::prelude::*;

use crate::hashing::FNV_OFFSET;
use crate::hashing::fold_bytes;
use crate::hashing::fold_bytes_from;

verus! {

/// Starting state of the second, independent hash fold.
pub const FNV_OFFSET_ALT: u64 = 0x84222325cbf29ce4;

/// Largest number of bits a filter may hold.
pub const MAX_BLOOM_BITS: u64 = 0x2000_0000;

/// First probe hash of a key.
pub open spec fn spec_hash1(key: Seq<u8>) -> u64 {
    fold_bytes(FNV_OFFSET, key)
}

/// Second probe hash of a key.
pub open spec fn spec_hash2(key: Seq<u8>) -> u64 {
    fold_bytes(FNV_OFFSET_ALT, key)
}

/// The bit index probed for `key` by hash number `i`, in a filter of `m`
/// bits: double hashing over the two folds.
pub open spec fn spec_probe(key: Seq<u8>, i: int, m: int) -> int {
    (spec_hash1(key) + i * spec_hash2(key)) % m
}


/// Ceiling of the base-two logarithm: the smallest `k` with `2^k >= n`.
pub open spec fn spec_log2_ceil(n: int) -> int
    decreases n,
{
    if n <= 1 {
        0
    } else {
        1 + spec_log2_ceil((n + 1) / 2)
    }
}

/// The logarithm of a target rate's inverse, clamped into the range the
/// sizing arithmetic works in.
pub open spec fn spec_fp_log(fp_ppm: u32) -> int {
    let lb = spec_log2_ceil(1_000_000 as int / fp_ppm as int);
    if lb > 64 {
        64
    } else {
        lb
    }
}

/// The bits-per-item a target rate needs.
pub open spec fn spec_bits_per_item(fp_ppm: u32) -> int {
    let bits = (spec_fp_log(fp_ppm) * 144 + 99) / 100;
    if bits < 1 {
        1
    } else if bits > 64 {
        64
    } else {
        bits
    }
}

/// The probe-hash count a target rate needs.
pub open spec fn spec_num_hashes(fp_ppm: u32) -> int {
    let lb = spec_fp_log(fp_ppm);
    if lb < 1 {
        1
    } else {
        lb
    }
}

/// Filter parameters for a target false-positive rate, given in parts
/// per million: the classic sizing, about `1.44 * log2(1/rate)` bits per
/// item and `log2(1/rate)` probe hashes, both clamped to a usable range.
pub fn params_for_fp_rate(fp_ppm: u32) -> (r: (u32, u32))
    requires
        1 <= fp_ppm <= 1_000_000,
    ensures
        1 <= r.0 <= 64,
        1 <= r.1 <= 64,
        r.0 == spec_bits_per_item(fp_ppm),
        r.1 == spec_num_hashes(fp_ppm),
{
    let inv = 1_000_000u64 / (fp_ppm as u64);
    let lb0 = log2_ceil(inv);
    let lb = if lb0 > 64 {
        64
    } else {
        lb0
    };
    let bits0 = (lb * 144 + 99) / 100;
    let bits = if bits0 < 1 {
        1
    } else if bits0 > 64 {
        64
    } else {
        bits0
    };
    let hashes = if lb < 1 {
        1
    } else {
        lb
    };
    ((bits as u32), (hashes as u32))
}

/// Compute the ceiling of the base-two logarithm.
fn log2_ceil(n: u64) -> (r: u64)
    requires
        n <= 1_000_000,
    ensures
        r == spec_log2_ceil(n as int),
{
    proof {
        lemma_log2_ceil_le_n(n as int);
    }
    let mut v = n;
    let mut r: u64 = 0;
    while v > 1
        invariant
            0 <= v <= n <= 1_000_000,
            r + spec_log2_ceil(v as int) == spec_log2_ceil(n as int),
            0 <= spec_log2_ceil(n as int) <= n,
            0 <= spec_log2_ceil(v as int),
        decreases v,
    {
        proof {
            lemma_log2_ceil_le_n((v as int + 1) / 2);
        }
        v = (v + 1) / 2;
        r = r + 1;
    }
    r
}

proof fn lemma_log2_ceil_le_n(n: int)
    ensures
        0 <= spec_log2_ceil(n),
        n >= 0 ==> spec_log2_ceil(n) <= n,
    decreases n,
{
    if n > 1 {
        lemma_log2_ceil_le_n((n + 1) / 2);
    }
}


/// An all-clear bit array of the given byte length.
pub open spec fn spec_clear_bits(byte_len: int) -> Seq<u8> {
    Seq::new(byte_len as nat, |i: int| 0u8)
}

/// The bit array with bit `j` set and every other bit as it was.
pub open spec fn spec_set_bit(bits: Seq<u8>, j: int) -> Seq<u8> {
    bits.update(j / 8, bits[j / 8] | (1u8 << ((j % 8) as u8)))
}

/// The bit array after the first `i` probes of `key` are set.
pub open spec fn spec_insert_probes(bits: Seq<u8>, key: Seq<u8>, i: int, m: int) -> Seq<u8>
    decreases i,
{
    if i <= 0 {
        bits
    } else {
        spec_set_bit(spec_insert_probes(bits, key, i - 1, m), spec_probe(key, i - 1, m))
    }
}

/// The bit array after inserting each key in order: the filter is a
/// deterministic function of the key sequence and the dimensions.
pub open spec fn spec_insert_keys(bits: Seq<u8>, keys: Seq<Seq<u8>>, k: int, m: int) -> Seq<u8>
    decreases keys.len(),
{
    if keys.len() == 0 {
        bits
    } else {
        spec_insert_probes(spec_insert_keys(bits, keys.drop_last(), k, m), keys.last(), k, m)
    }
}

/// A deterministic bloom filter over item keys.
#[derive(Clone, Debug)]
pub struct BloomFilter {
    /// The bit array, packed eight bits to a byte, low bit first.
    pub bits: Vec<u8>,
    /// Number of bits in use.
    pub num_bits: u64,
    /// Number of probe hashes per key.
    pub num_hashes: u32,
}

impl BloomFilter {
    /// Well-formed: at least one bit, at least one hash, and a bit array
    /// of exactly the right length.
    pub open spec fn wf(self) -> bool {
        &&& 1 <= self.num_bits <= MAX_BLOOM_BITS
        &&& 1 <= self.num_hashes <= 64
        &&& self.bits@.len() == (self.num_bits + 7) / 8
    }

    /// Whether bit `j` of the filter is set.
    pub open spec fn bit_at(self, j: int) -> bool {
        ((self.bits@[j / 8] >> ((j % 8) as u8)) & 1) == 1
    }

    /// Whether every probe bit of `key` is set: the membership test.
    pub open spec fn tests_positive(self, key: Seq<u8>) -> bool {
        forall|i: int|
            0 <= i < self.num_hashes ==> self.bit_at(
                #[trigger] spec_probe(key, i, self.num_bits as int),
            )
    }

    /// Same shape: equal size and probe count, so probes of a key land on
    /// the same bits in both filters.
    pub open spec fn same_shape(self, other: BloomFilter) -> bool {
        self.num_bits == other.num_bits && self.num_hashes == other.num_hashes
    }

    /// A clear filter sized for the expected item count.
    pub fn new(expected_items: usize, bits_per_item: u32, num_hashes: u32) -> (r: BloomFilter)
        requires
            1 <= bits_per_item <= 64,
            1 <= num_hashes <= 64,
            expected_items <= 0x40_0000,
        ensures
            r.wf(),
            r.num_hashes == num_hashes,
            r.num_bits == if expected_items * bits_per_item >= 1 {
                expected_items * bits_per_item as int
            } else {
                1int
            },
            forall|j: int| 0 <= j < r.num_bits ==> !r.bit_at(j),
            r.bits@ == spec_clear_bits((r.num_bits + 7) as int / 8),
    {
        proof {
            assert((expected_items as int) * (bits_per_item as int) <= 0x40_0000 * 64)
                by (nonlinear_arith)
                requires
                    0 <= expected_items <= 0x40_0000,
                    0 <= bits_per_item <= 64,
            ;
        }
        let want = (expected_items as u64) * (bits_per_item as u64);
        let num_bits = if want >= 1 {
            want
        } else {
            1
        };
        let byte_len = ((num_bits + 7) / 8) as usize;
        let mut bits: Vec<u8> = Vec::new();
        let mut i: usize = 0;
        while i < byte_len
            invariant
                0 <= i <= byte_len,
                bits@.len() == i,
                forall|k: int| 0 <= k < i ==> bits@[k] == 0u8,
            decreases byte_len - i,
        {
            bits.push(0);
            i += 1;
        }
        let r = BloomFilter { bits, num_bits, num_hashes };
        proof {
            assert(r.bits@ =~= spec_clear_bits((r.num_bits + 7) as int / 8));
        }
        assert forall|j: int| 0 <= j < r.num_bits implies !r.bit_at(j) by {
            assert(0 <= j / 8 < (r.num_bits + 7) / 8) by (nonlinear_arith)
                requires
                    0 <= j < r.num_bits,
            ;
            assert(r.bits@[j / 8] == 0u8);
            let k = (j % 8) as u8;
            assert((0u8 >> k) & 1 == 0) by (bit_vector);
        }
        r
    }

    /// The probe bit index for `key` and hash number `i`.
    fn probe(&self, h1: u64, h2: u64, i: u32) -> (r: u64)
        requires
            self.wf(),
            i < self.num_hashes,
        ensures
            0 <= r < self.num_bits,
            forall|key: Seq<u8>|
                spec_hash1(key) == h1 && spec_hash2(key) == h2 ==> r == spec_probe(
                    key,
                    i as int,
                    self.num_bits as int,
                ),
    {
        let m = self.num_bits as u128;
        proof {
            assert((i as int) * (h2 as int) <= 64 * 0xFFFF_FFFF_FFFF_FFFF) by (nonlinear_arith)
                requires
                    0 <= i <= 64,
                    0 <= h2 <= 0xFFFF_FFFF_FFFF_FFFF,
            ;
            assert((i as int) * (h2 as int) >= 0) by (nonlinear_arith)
                requires
                    0 <= i,
                    0 <= h2,
            ;
        }
        let idx = ((h1 as u128 + (i as u128) * (h2 as u128)) % m) as u64;
        idx
    }

    /// Set bit `j`, leaving every other bit as it was.
    fn set_bit(&mut self, j: u64)
        requires
            old(self).wf(),
            j < old(self).num_bits,
        ensures
            final(self).wf(),
            final(self).num_bits == old(self).num_bits,
            final(self).num_hashes == old(self).num_hashes,
            final(self).bit_at(j as int),
            forall|k: int|
                0 <= k < old(self).num_bits && k != j ==> final(self).bit_at(k) == old(
                    self,
                ).bit_at(k),
            forall|k: int|
                0 <= k < old(self).num_bits && old(self).bit_at(k) ==> final(self).bit_at(k),
            final(self).bits@ == spec_set_bit(old(self).bits@, j as int),
    {
        let byte_idx = (j / 8) as usize;
        let bit_idx = (j % 8) as u8;
        let b = self.bits[byte_idx];
        let nb = b | (1u8 << bit_idx);
        self.bits.set(byte_idx, nb);
        proof {
            let x = b;
            let k = bit_idx;
            assert(((x | (1u8 << k)) >> k) & 1 == 1) by (bit_vector)
                requires
                    k < 8,
            ;
            assert forall|k2: u8| k2 < 8 && k2 != k implies ((x | (1u8 << k)) >> k2) & 1 == (x
                >> k2) & 1 by {
                assert(k2 != k ==> ((x | (1u8 << k)) >> k2) & 1 == (x >> k2) & 1) by (bit_vector)
                    requires
                        k < 8,
                        k2 < 8,
                ;
            }
        }
    }

    /// Insert a key: afterwards the key tests positive, and every bit that
    /// was already set stays set, so earlier keys keep testing positive.
    pub fn insert(&mut self, key: &[u8])
        requires
            old(self).wf(),
        ensures
            final(self).wf(),
            final(self).same_shape(*old(self)),
            final(self).tests_positive(key@),
            forall|k: int|
                0 <= k < old(self).num_bits && old(self).bit_at(k) ==> final(self).bit_at(k),
            forall|k2: Seq<u8>| old(self).tests_positive(k2) ==> final(self).tests_positive(k2),
            final(self).bits@ == spec_insert_probes(
                old(self).bits@,
                key@,
                old(self).num_hashes as int,
                old(self).num_bits as int,
            ),
    {
        let h1 = fold_bytes_from(FNV_OFFSET, key);
        let h2 = fold_bytes_from(FNV_OFFSET_ALT, key);
        let n = self.num_hashes;
        let mut i: u32 = 0;
        while i < n
            invariant
                0 <= i <= n,
                self.wf(),
                n == self.num_hashes,
                self.same_shape(*old(self)),
                h1 == spec_hash1(key@),
                h2 == spec_hash2(key@),
                forall|k: int|
                    0 <= k < old(self).num_bits && old(self).bit_at(k) ==> self.bit_at(k),
                forall|i2: int|
                    0 <= i2 < i ==> self.bit_at(
                        #[trigger] spec_probe(key@, i2, self.num_bits as int),
                    ),
                self.bits@ == spec_insert_probes(
                    old(self).bits@,
                    key@,
                    i as int,
                    self.num_bits as int,
                ),
            decreases n - i,
        {
            let idx = self.probe(h1, h2, i);
            self.set_bit(idx);
            i += 1;
        }
        assert forall|k2: Seq<u8>| old(self).tests_positive(k2) implies self.tests_positive(
            k2,
        ) by {
            lemma_no_false_negative(*old(self), *self, k2);
        }
    }

    /// Membership test: true when every probe bit of the key is set.
    pub fn check(&self, key: &[u8]) -> (r: bool)
        requires
            self.wf(),
        ensures
            r == self.tests_positive(key@),
    {
        let h1 = fold_bytes_from(FNV_OFFSET, key);
        let h2 = fold_bytes_from(FNV_OFFSET_ALT, key);
        let n = self.num_hashes;
        let mut i: u32 = 0;
        while i < n
            invariant
                0 <= i <= n,
                self.wf(),
                n == self.num_hashes,
                h1 == spec_hash1(key@),
                h2 == spec_hash2(key@),
                forall|i2: int|
                    0 <= i2 < i ==> self.bit_at(
                        #[trigger] spec_probe(key@, i2, self.num_bits as int),
                    ),
            decreases n - i,
        {
            let idx = self.probe(h1, h2, i);
            let byte_idx = (idx / 8) as usize;
            let bit_idx = (idx % 8) as u8;
            if (self.bits[byte_idx] >> bit_idx) & 1 != 1 {
                return false;
            }
            i += 1;
        }
        true
    }
}

/// Bloom soundness: no false negatives. If a filter tests positive for a
/// key, then any filter of the same shape whose bits include the first
/// filter's bits also tests positive for that key — so inserting further
/// keys can never make an inserted key test negative.
pub proof fn lemma_no_false_negative(b1: BloomFilter, b2: BloomFilter, key: Seq<u8>)
    requires
        b1.wf(),
        b2.wf(),
        b1.same_shape(b2),
        forall|k: int| 0 <= k < b1.num_bits && b1.bit_at(k) ==> b2.bit_at(k),
        b1.tests_positive(key),
    ensures
        b2.tests_positive(key),
{
    assert forall|i: int|
        0 <= i < b2.num_hashes implies b2.bit_at(
        #[trigger] spec_probe(key, i, b2.num_bits as int),
    ) by {
        let j = spec_probe(key, i, b2.num_bits as int);
        assert(b1.bit_at(j));
        assert(0 <= j < b1.num_bits) by {
            lemma_probe_in_range(key, i, b1.num_bits as int);
        }
    }
}

proof fn lemma_nonneg_prod(a: int, b: int)
    requires
        a >= 0,
        b >= 0,
    ensures
        a * b >= 0,
{
    assert(a * b >= 0) by (nonlinear_arith)
        requires
            a >= 0,
            b >= 0,
    ;
}

proof fn lemma_mod_range(x: int, m: int)
    requires
        x >= 0,
        m >= 1,
    ensures
        0 <= x % m < m,
{
    assert(0 <= x % m < m) by (nonlinear_arith)
        requires
            x >= 0,
            m >= 1,
    ;
}

proof fn lemma_probe_in_range(key: Seq<u8>, i: int, m: int)
    requires
        m >= 1,
        i >= 0,
    ensures
        0 <= spec_probe(key, i, m) < m,
{
    lemma_nonneg_prod(i, spec_hash2(key) as int);
    lemma_mod_range(spec_hash1(key) + i * (spec_hash2(key) as int), m);
}

} // verus!
