//! A membership filter over the keys of an SSTable: it may say that a key is there
//! that is not, and never that a key is not there that is.
use crate::memtable::Blob;
use vstd::prelude::*;

verus! {

/// How many bits a key sets.
pub const NUM_PROBES: u64 = 7;

/// Start values of the two hashes of a key.
pub const FIRST_BASIS: u64 = 0xcbf2_9ce4_8422_2325;

pub const SECOND_BASIS: u64 = 0x9e37_79b9_7f4a_7c15;

/// The multiplier of FNV-1a.
pub const FNV_PRIME: u64 = 0x0000_0100_0000_01b3;

/// The 64-bit FNV-1a hash of `key`, from the given start value.
pub open spec fn fnv(key: Seq<u8>, basis: u64) -> u64
    decreases key.len(),
{
    if key.len() == 0 {
        basis
    } else {
        (fnv(key.drop_last(), basis) ^ (key.last() as u64)).wrapping_mul(FNV_PRIME)
    }
}

/// Probe `i` of `key`: the number that picks a bit.
pub open spec fn probe(key: Seq<u8>, i: u64) -> u64 {
    fnv(key, FIRST_BASIS).wrapping_add(fnv(key, SECOND_BASIS).wrapping_mul(i))
}

/// The byte that a probe picks.
pub open spec fn probe_byte(probe: u64, len: nat) -> int {
    probe as int % len as int
}

/// The bit of that byte.
pub open spec fn probe_mask(probe: u64, len: nat) -> u8 {
    1u8 << (((probe as int / len as int) % 8) as u8)
}

/// The bit that a probe picks is set.
pub open spec fn has_bit(bits: Seq<u8>, probe: u64) -> bool {
    bits[probe_byte(probe, bits.len())] & probe_mask(probe, bits.len()) != 0
}

/// `bits` with the bit that a probe picks set.
pub open spec fn with_bit(bits: Seq<u8>, probe: u64) -> Seq<u8> {
    let byte = probe_byte(probe, bits.len());
    bits.update(byte, bits[byte] | probe_mask(probe, bits.len()))
}

/// `bits` with the bits of the first `count` probes of `key` set.
pub open spec fn with_probes(bits: Seq<u8>, key: Seq<u8>, count: u64) -> Seq<u8>
    decreases count,
{
    if count == 0 {
        bits
    } else {
        let i = (count - 1) as u64;
        with_bit(with_probes(bits, key, i), probe(key, i))
    }
}

/// `bits` with `key` entered.
pub open spec fn with_key(bits: Seq<u8>, key: Seq<u8>) -> Seq<u8> {
    if bits.len() == 0 {
        bits
    } else {
        with_probes(bits, key, NUM_PROBES)
    }
}

/// What the filter says of `key`: all its bits are set. A filter without bits says
/// yes to every key.
pub open spec fn may_hold(bits: Seq<u8>, key: Seq<u8>) -> bool {
    bits.len() > 0 ==> forall|i: u64| i < NUM_PROBES ==> has_bit(bits, #[trigger] probe(key, i))
}

/// Bytes of a filter for `capacity` keys: ten bits a key.
pub open spec fn filter_len(capacity: nat) -> nat {
    let len = capacity + capacity / 4 + 1;
    if len <= usize::MAX {
        len
    } else {
        usize::MAX as nat
    }
}

proof fn lemma_with_bit(bits: Seq<u8>, p: u64, q: u64)
    requires
        bits.len() > 0,
    ensures
        with_bit(bits, p).len() == bits.len(),
        has_bit(with_bit(bits, p), p),
        has_bit(bits, q) ==> has_bit(with_bit(bits, p), q),
{
    let len = bits.len();
    let byte = probe_byte(p, len);
    assert(0 <= byte < len) by (nonlinear_arith)
        requires
            len > 0,
            byte == p as int % len as int,
    ;
    let other = probe_byte(q, len);
    assert(0 <= other < len) by (nonlinear_arith)
        requires
            len > 0,
            other == q as int % len as int,
    ;
    let old_byte = bits[byte];
    let pb = ((p as int / len as int) % 8) as u8;
    assert(pb < 8);
    assert((old_byte | (1u8 << pb)) & (1u8 << pb) != 0) by (bit_vector)
        requires
            pb < 8,
    ;
    let qb = ((q as int / len as int) % 8) as u8;
    assert(old_byte & (1u8 << qb) != 0 ==> (old_byte | (1u8 << pb)) & (1u8 << qb) != 0)
        by (bit_vector);
}

proof fn lemma_with_probes(bits: Seq<u8>, key: Seq<u8>, count: u64, q: u64)
    requires
        bits.len() > 0,
    ensures
        with_probes(bits, key, count).len() == bits.len(),
        has_bit(bits, q) ==> has_bit(with_probes(bits, key, count), q),
        forall|i: u64| i < count ==> has_bit(with_probes(bits, key, count), #[trigger] probe(key, i)),
    decreases count,
{
    if count > 0 {
        let last = (count - 1) as u64;
        let before = with_probes(bits, key, last);
        lemma_with_probes(bits, key, last, q);
        lemma_with_bit(before, probe(key, last), q);
        assert forall|i: u64| i < count implies has_bit(
            with_probes(bits, key, count),
            #[trigger] probe(key, i),
        ) by {
            lemma_with_bit(before, probe(key, last), probe(key, i));
        }
    }
}

/// A filter holds what was entered, and goes on holding what it held.
pub proof fn lemma_no_false_negative(bits: Seq<u8>, key: Seq<u8>, other: Seq<u8>)
    ensures
        with_key(bits, key).len() == bits.len(),
        may_hold(with_key(bits, key), key),
        may_hold(bits, other) ==> may_hold(with_key(bits, key), other),
{
    if bits.len() > 0 {
        lemma_with_probes(bits, key, NUM_PROBES, 0);
        if may_hold(bits, other) {
            assert forall|i: u64| i < NUM_PROBES implies has_bit(
                with_key(bits, key),
                #[trigger] probe(other, i),
            ) by {
                lemma_with_probes(bits, key, NUM_PROBES, probe(other, i));
            }
        }
    }
}

/// The bit of its byte that a probe picks.
pub open spec fn probe_bit(probe: u64, len: nat) -> int {
    (probe as int / len as int) % 8
}

/// A probe picks bit `bit` of byte `byte`.
pub open spec fn picks(probe: u64, len: nat, byte: int, bit: u8) -> bool {
    probe_byte(probe, len) == byte && probe_bit(probe, len) == bit
}

proof fn lemma_other_bits(bits: Seq<u8>, key: Seq<u8>, count: u64, byte: int, bit: u8)
    requires
        bits.len() > 0,
        0 <= byte < bits.len(),
        bit < 8,
        forall|i: u64| i < count ==> !picks(#[trigger] probe(key, i), bits.len(), byte, bit),
    ensures
        with_probes(bits, key, count).len() == bits.len(),
        with_probes(bits, key, count)[byte] & (1u8 << bit) == bits[byte] & (1u8 << bit),
    decreases count,
{
    if count > 0 {
        let last = (count - 1) as u64;
        let before = with_probes(bits, key, last);
        lemma_other_bits(bits, key, last, byte, bit);
        let p = probe(key, last);
        lemma_with_bit(before, p, p);
        assert(!picks(p, bits.len(), byte, bit));
        let x = before[byte];
        let pb = ((p as int / bits.len() as int) % 8) as u8;
        if probe_byte(p, bits.len()) == byte {
            assert(pb != bit);
            assert((x | (1u8 << pb)) & (1u8 << bit) == x & (1u8 << bit)) by (bit_vector)
                requires
                    pb < 8,
                    bit < 8,
                    pb != bit,
            ;
        }
    }
}

/// Entering a key sets the bits that its probes pick, and leaves all others as they are.
pub proof fn lemma_sets_own_bits(bits: Seq<u8>, key: Seq<u8>, byte: int, bit: u8)
    requires
        0 <= byte < bits.len(),
        bit < 8,
        forall|i: u64| i < NUM_PROBES ==> !picks(#[trigger] probe(key, i), bits.len(), byte, bit),
    ensures
        with_key(bits, key)[byte] & (1u8 << bit) == bits[byte] & (1u8 << bit),
{
    lemma_other_bits(bits, key, NUM_PROBES, byte, bit);
}

/// A filter that nothing was entered in lets no key through.
pub proof fn lemma_empty_filter(len: nat, key: Seq<u8>)
    requires
        len > 0,
    ensures
        !may_hold(Seq::new(len, |i: int| 0u8), key),
{
    let bits = Seq::new(len, |i: int| 0u8);
    let p = probe(key, 0);
    let byte = probe_byte(p, len);
    assert(0 <= byte < len) by (nonlinear_arith)
        requires
            len > 0,
            byte == p as int % len as int,
    ;
    let mask = probe_mask(p, len);
    assert(0u8 & mask == 0) by (bit_vector);
    assert(!has_bit(bits, p));
}

/// A filter has more than ten bits for each of the keys that it is for, by a byte at most.
pub proof fn lemma_filter_len(capacity: nat)
    requires
        capacity + capacity / 4 + 1 <= usize::MAX,
    ensures
        10 * capacity < 8 * filter_len(capacity) <= 10 * capacity + 8,
{
}

/// Hashes `key` from the given start value.
fn hash(key: &[u8], basis: u64) -> (hash: u64)
    ensures
        hash == fnv(key@, basis),
{
    let mut hash: u64 = basis;
    let mut i: usize = 0;
    assert(key@.take(0) =~= Seq::<u8>::empty());
    while i < key.len()
        invariant
            i <= key@.len(),
            hash == fnv(key@.take(i as int), basis),
        decreases key@.len() - i,
    {
        proof {
            let next = key@.take(i + 1);
            assert(next.drop_last() =~= key@.take(i as int));
        }
        hash = (hash ^ (key[i] as u64)).wrapping_mul(FNV_PRIME);
        i = i + 1;
    }
    assert(key@.take(i as int) =~= key@);
    hash
}

/// A Bloom filter.
#[derive(Debug)]
pub struct BloomFilter {
    bits: Vec<u8>,
}

impl View for BloomFilter {
    type V = Seq<u8>;

    closed spec fn view(&self) -> Seq<u8> {
        self.bits@
    }
}

impl BloomFilter {
    /// An empty filter, sized for `capacity` keys.
    pub fn new(capacity: usize) -> (filter: BloomFilter)
        ensures
            filter@ == Seq::new(filter_len(capacity as nat), |i: int| 0u8),
    {
        let len: usize = capacity.saturating_add(capacity / 4).saturating_add(1);
        let filter = BloomFilter { bits: vec![0u8; len] };
        assert(filter@ =~= Seq::new(filter_len(capacity as nat), |i: int| 0u8));
        filter
    }

    /// Enters `key`.
    pub fn insert(&mut self, key: &[u8])
        ensures
            final(self)@ == with_key(old(self)@, key@),
    {
        if self.bits.len() == 0 {
            return;
        }
        let first: u64 = hash(key, FIRST_BASIS);
        let second: u64 = hash(key, SECOND_BASIS);
        let mut i: u64 = 0;
        while i < NUM_PROBES
            invariant
                i <= NUM_PROBES,
                0 < self.bits.len() == old(self)@.len(),
                first == fnv(key@, FIRST_BASIS),
                second == fnv(key@, SECOND_BASIS),
                self@ == with_probes(old(self)@, key@, i),
            decreases NUM_PROBES - i,
        {
            let p: u64 = first.wrapping_add(second.wrapping_mul(i));
            let len: u64 = self.bits.len() as u64;
            let byte: usize = (p % len) as usize;
            let bit: u8 = ((p / len) % 8) as u8;
            proof {
                lemma_with_bit(self@, p, p);
            }
            self.bits[byte] = self.bits[byte] | (1u8 << bit);
            i = i + 1;
            assert(self@ =~= with_bit(with_probes(old(self)@, key@, (i - 1) as u64), p));
        }
    }

    /// Whether `key` may have been entered.
    pub fn contains(&self, key: &[u8]) -> (found: bool)
        ensures
            found == may_hold(self@, key@),
    {
        if self.bits.len() == 0 {
            return true;
        }
        let first: u64 = hash(key, FIRST_BASIS);
        let second: u64 = hash(key, SECOND_BASIS);
        let mut i: u64 = 0;
        while i < NUM_PROBES
            invariant
                i <= NUM_PROBES,
                0 < self.bits.len(),
                first == fnv(key@, FIRST_BASIS),
                second == fnv(key@, SECOND_BASIS),
                forall|j: u64| j < i ==> has_bit(self@, #[trigger] probe(key@, j)),
            decreases NUM_PROBES - i,
        {
            let p: u64 = first.wrapping_add(second.wrapping_mul(i));
            assert(p == probe(key@, i));
            let len: u64 = self.bits.len() as u64;
            let byte: usize = (p % len) as usize;
            let bit: u8 = ((p / len) % 8) as u8;
            if self.bits[byte] & (1u8 << bit) == 0 {
                assert(!has_bit(self@, p));
                return false;
            }
            i = i + 1;
        }
        true
    }

    /// The filter as bytes.
    pub fn serialize(self) -> (bytes: Blob)
        ensures
            bytes@ == self@,
    {
        self.bits
    }

    /// The filter that was written as `bytes`.
    pub fn from_bytes(bytes: &[u8]) -> (filter: BloomFilter)
        ensures
            filter@ == bytes@,
    {
        BloomFilter { bits: vstd::slice::slice_to_vec(bytes) }
    }
}

/// The hash of a key takes in its bytes one after the other: each is combined with the
/// hash so far by exclusive or, and the result is multiplied by the prime of FNV-1a.
pub proof fn lemma_fnv(key: Seq<u8>, byte: u8, basis: u64)
    ensures
        fnv(Seq::empty(), basis) == basis,
        fnv(key.push(byte), basis) == ((fnv(key, basis) ^ (byte as u64)) * 0x100_0000_01b3)
            % 0x1_0000_0000_0000_0000,
{
    assert(key.push(byte).drop_last() =~= key);
}

/// The probes of a key step through the numbers by its second hash, from its first hash
/// on.
pub proof fn lemma_probe(key: Seq<u8>, i: u64)
    requires
        i < u64::MAX,
    ensures
        probe(key, 0) == fnv(key, 0xcbf2_9ce4_8422_2325),
        probe(key, (i + 1) as u64) == (probe(key, i) + fnv(key, 0x9e37_79b9_7f4a_7c15))
            % 0x1_0000_0000_0000_0000,
{
    let first = fnv(key, FIRST_BASIS);
    let second = fnv(key, SECOND_BASIS);
    let next = (i + 1) as u64;
    assert(second * 0 == 0);
    assert(second * next == second * i + second) by (nonlinear_arith)
        requires
            next == i + 1,
    ;
    lemma_wrapping_step(first as int, second as int, second * i);
}

proof fn lemma_wrapping_step(first: int, second: int, product: int)
    ensures
        (first + (product + second) % 0x1_0000_0000_0000_0000) % 0x1_0000_0000_0000_0000 == ((first
            + product % 0x1_0000_0000_0000_0000) % 0x1_0000_0000_0000_0000 + second)
            % 0x1_0000_0000_0000_0000,
{
}

/// What a filter with bits says yes to: the keys of which all seven probes are set, where
/// a probe is set if its bit is, in the byte that is its remainder by the length.
pub proof fn lemma_may_hold(bits: Seq<u8>, key: Seq<u8>)
    requires
        bits.len() > 0,
    ensures
        may_hold(bits, key) <==> forall|i: u64|
            i < 7 ==> {
                let p = #[trigger] probe(key, i);
                bits[p as int % bits.len() as int] & (1u8 << (((p as int / bits.len() as int) % 8)
                    as u8)) != 0
            },
        may_hold(Seq::empty(), key),
{
}

} // verus!
