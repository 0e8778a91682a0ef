//! The bit array of one window hash, and the Hamming distance between two of them.

use crate::tally;
use vstd::prelude::*;

verus! {

/// Number of bits that a window hash is stored in.
pub const STORED_BITS: usize = 1024;

/// Number of bytes that a window hash is stored in.
pub const STORED_BYTES: usize = 128;

/// The bits of one window hash: a `bitvec` array of 1024 bits, of which the first 1000 carry
/// information.
#[verifier::external_body]
#[derive(Debug)]
pub struct HashBits {
    bits: bitvec::array::BitArray<[u8; 128], bitvec::order::Lsb0>,
}

/// The bits that a hash holds, first bit first.
pub uninterp spec fn hash_contents(hash: HashBits) -> Seq<bool>;

/// Bit `i` of a byte sequence in which the first bit of a byte is its least significant one.
pub open spec fn bit_at(bytes: Seq<u8>, i: int) -> bool {
    (bytes[i / 8] >> ((i % 8) as u8)) & 1u8 == 1u8
}

/// All bits of a byte sequence, least significant bit of each byte first.
pub open spec fn bits_of(bytes: Seq<u8>) -> Seq<bool> {
    Seq::new(8 * bytes.len(), |i: int| bit_at(bytes, i))
}

/// The number of positions in which two bit sequences of one length differ.
pub open spec fn differing(a: Seq<bool>, b: Seq<bool>) -> nat
    decreases a.len(),
{
    if a.len() == 0 {
        0
    } else {
        differing(a.drop_last(), b.drop_last()) + if a.last() != b.last() { 1nat } else { 0nat }
    }
}

/// `hamming_bitwise_fast::hamming_bitwise_fast`: the number of bits in which two byte slices of
/// one length differ. The call panics on slices of different lengths, and counts in 32 bits.
#[verifier::external_body]
fn hamming(a: &[u8], b: &[u8]) -> (distance: u32)
    requires
        a@.len() == b@.len(),
        8 * a@.len() <= u32::MAX,
    ensures
        distance == differing(bits_of(a@), bits_of(b@)),
{
    hamming_bitwise_fast::hamming_bitwise_fast(a, b)
}

/// `BitArray::as_raw_slice`: the bytes of the array, each with its first bit least significant.
#[verifier::external_body]
fn raw_bytes(hash: &HashBits) -> (bytes: &[u8])
    ensures
        bytes@.len() == STORED_BYTES,
        bits_of(bytes@) == hash_contents(*hash),
{
    hash.bits.as_raw_slice()
}

/// `BitArray::ZERO`: the array whose bits are all zero.
#[verifier::external_body]
fn zero_array() -> (hash: HashBits)
    ensures
        hash_contents(hash) == Seq::new(STORED_BITS as nat, |i: int| false),
{
    HashBits { bits: bitvec::array::BitArray::ZERO }
}

/// `BitArray::set`, which the array has from its bit slice: sets one bit and leaves the others
/// as they are. The call panics on an index that is out of range.
#[verifier::external_body]
fn set_bit(hash: &mut HashBits, index: usize, value: bool)
    requires
        index < STORED_BITS,
    ensures
        hash_contents(*final(hash)) == hash_contents(*old(hash)).update(index as int, value),
{
    hash.bits.set(index, value);
}

/// `BitArray::new`: the array over the given bytes.
#[verifier::external_body]
fn array_of(bytes: [u8; 128]) -> (hash: HashBits)
    ensures
        hash_contents(hash) == bits_of(bytes@),
{
    HashBits { bits: bitvec::array::BitArray::new(bytes) }
}

impl Clone for HashBits {
    /// `BitArray::clone`: the copy holds the same bits.
    #[verifier::external_body]
    fn clone(&self) -> (copy: Self)
        ensures
            hash_contents(copy) == hash_contents(*self),
    {
        HashBits { bits: self.bits.clone() }
    }
}

impl HashBits {
    /// The hash whose bits are all zero.
    pub fn zero() -> (hash: Self)
        ensures
            hash_contents(hash) == Seq::new(STORED_BITS as nat, |i: int| false),
    {
        zero_array()
    }

    /// Sets one bit.
    pub fn set(&mut self, index: usize, value: bool)
        requires
            index < STORED_BITS,
        ensures
            hash_contents(*final(self)) == hash_contents(*old(self)).update(index as int, value),
    {
        set_bit(self, index, value);
    }

    /// The number of bits in which two hashes differ.
    pub fn distance(&self, other: &Self) -> (distance: u32)
        ensures
            distance == differing(hash_contents(*self), hash_contents(*other)),
            distance <= STORED_BITS,
    {
        let a = raw_bytes(self);
        let b = raw_bytes(other);
        let distance: u32 = hamming(a, b);
        proof {
            lemma_distance_bound(hash_contents(*self), hash_contents(*other));
        }
        distance
    }

    /// The stored form of a hash: its bytes.
    pub fn to_bytes(&self) -> (bytes: Vec<u8>)
        ensures
            bytes@.len() == STORED_BYTES,
            bits_of(bytes@) == hash_contents(*self),
    {
        let raw = raw_bytes(self);
        let mut bytes: Vec<u8> = Vec::new();
        let mut i: usize = 0;
        while i < raw.len()
            invariant
                i <= raw@.len(),
                bytes@ == raw@.take(i as int),
            decreases raw@.len() - i,
        {
            bytes.push(raw[i]);
            i = i + 1;
        }
        assert(bytes@ =~= raw@);
        bytes
    }

    /// Reads the stored form of a hash. There are exactly 128 bytes in one.
    pub fn from_bytes(bytes: &[u8]) -> (hash: Option<Self>)
        ensures
            hash is Some <==> bytes@.len() == STORED_BYTES,
            hash matches Some(h) ==> hash_contents(h) == bits_of(bytes@),
    {
        if bytes.len() != STORED_BYTES {
            return None;
        }
        let mut array: [u8; 128] = [0u8; 128];
        let mut i: usize = 0;
        while i < STORED_BYTES
            invariant
                i <= STORED_BYTES,
                bytes@.len() == STORED_BYTES,
                forall|k: int| 0 <= k < i ==> array@[k] == bytes@[k],
            decreases STORED_BYTES - i,
        {
            array[i] = bytes[i];
            i = i + 1;
        }
        assert(array@ =~= bytes@);
        Some(array_of(array))
    }
}

/// A distance is at most the number of bits.
pub proof fn lemma_distance_bound(a: Seq<bool>, b: Seq<bool>)
    ensures
        differing(a, b) <= a.len(),
    decreases a.len(),
{
    if a.len() > 0 {
        lemma_distance_bound(a.drop_last(), b.drop_last());
    }
}

/// Two hashes are at distance zero exactly where they hold the same bits.
pub proof fn law_distance_zero(a: Seq<bool>, b: Seq<bool>)
    requires
        a.len() == b.len(),
    ensures
        differing(a, b) == 0 <==> a == b,
    decreases a.len(),
{
    if a.len() > 0 {
        law_distance_zero(a.drop_last(), b.drop_last());
        if differing(a, b) == 0 {
            assert(a.drop_last() == b.drop_last() && a.last() == b.last());
            assert(a =~= a.drop_last().push(a.last()));
            assert(b =~= b.drop_last().push(b.last()));
        }
    } else {
        assert(a =~= b);
    }
}

/// The distance from one hash to another is the distance back.
pub proof fn law_distance_symmetric(a: Seq<bool>, b: Seq<bool>)
    requires
        a.len() == b.len(),
    ensures
        differing(a, b) == differing(b, a),
    decreases a.len(),
{
    if a.len() > 0 {
        law_distance_symmetric(a.drop_last(), b.drop_last());
    }
}

/// A detour over a third hash is never shorter.
pub proof fn law_distance_triangle(a: Seq<bool>, b: Seq<bool>, c: Seq<bool>)
    requires
        a.len() == b.len(),
        b.len() == c.len(),
    ensures
        differing(a, c) <= differing(a, b) + differing(b, c),
    decreases a.len(),
{
    if a.len() > 0 {
        law_distance_triangle(a.drop_last(), b.drop_last(), c.drop_last());
    }
}

/// Hashes whose unused bits are zero are at most 1000 bits apart.
pub proof fn law_distance_of_used_bits(a: Seq<bool>, b: Seq<bool>)
    requires
        a.len() == STORED_BITS,
        b.len() == STORED_BITS,
        forall|i: int| crate::visual::HASH_BITS <= i < STORED_BITS ==> !#[trigger] a[i] && !#[trigger] b[i],
    ensures
        differing(a, b) <= crate::visual::HASH_BITS,
{
    lemma_equal_tail(a, b, crate::visual::HASH_BITS as int);
    lemma_distance_bound(
        a.take(crate::visual::HASH_BITS as int),
        b.take(crate::visual::HASH_BITS as int),
    );
}

/// Positions that agree add nothing to the distance.
proof fn lemma_equal_tail(a: Seq<bool>, b: Seq<bool>, n: int)
    requires
        a.len() == b.len(),
        0 <= n <= a.len(),
        forall|i: int| n <= i < a.len() ==> #[trigger] a[i] == #[trigger] b[i],
    ensures
        differing(a, b) == differing(a.take(n), b.take(n)),
    decreases a.len(),
{
    if a.len() > n {
        lemma_equal_tail(a.drop_last(), b.drop_last(), n);
        assert(a.drop_last().take(n) =~= a.take(n));
        assert(b.drop_last().take(n) =~= b.take(n));
    } else {
        assert(a.take(n) =~= a);
        assert(b.take(n) =~= b);
    }
}

/// Bytes are determined by their bits: what `from_bytes` reads, `to_bytes` gives back.
pub proof fn law_bytes_from_bits(a: Seq<u8>, b: Seq<u8>)
    requires
        bits_of(a) == bits_of(b),
    ensures
        a == b,
{
    assert(a.len() == b.len()) by {
        assert(bits_of(a).len() == 8 * a.len());
        assert(bits_of(b).len() == 8 * b.len());
    }
    assert forall|k: int| 0 <= k < a.len() implies a[k] == b[k] by {
        assert forall|j: int| 0 <= j < 8 implies #[trigger] bit_at(a, 8 * k + j) == bit_at(b, 8 * k + j) by {
            assert(bits_of(a)[8 * k + j] == bit_at(a, 8 * k + j));
            assert(bits_of(b)[8 * k + j] == bit_at(b, 8 * k + j));
        }
        let x: u8 = a[k];
        let y: u8 = b[k];
        assert(bit_at(a, 8 * k + 0) == bit_at(b, 8 * k + 0));
        assert(bit_at(a, 8 * k + 1) == bit_at(b, 8 * k + 1));
        assert(bit_at(a, 8 * k + 2) == bit_at(b, 8 * k + 2));
        assert(bit_at(a, 8 * k + 3) == bit_at(b, 8 * k + 3));
        assert(bit_at(a, 8 * k + 4) == bit_at(b, 8 * k + 4));
        assert(bit_at(a, 8 * k + 5) == bit_at(b, 8 * k + 5));
        assert(bit_at(a, 8 * k + 6) == bit_at(b, 8 * k + 6));
        assert(bit_at(a, 8 * k + 7) == bit_at(b, 8 * k + 7));
        assert(x == y) by (bit_vector)
            requires
                ((x >> 0u8) & 1u8 == 1u8) == ((y >> 0u8) & 1u8 == 1u8),
                ((x >> 1u8) & 1u8 == 1u8) == ((y >> 1u8) & 1u8 == 1u8),
                ((x >> 2u8) & 1u8 == 1u8) == ((y >> 2u8) & 1u8 == 1u8),
                ((x >> 3u8) & 1u8 == 1u8) == ((y >> 3u8) & 1u8 == 1u8),
                ((x >> 4u8) & 1u8 == 1u8) == ((y >> 4u8) & 1u8 == 1u8),
                ((x >> 5u8) & 1u8 == 1u8) == ((y >> 5u8) & 1u8 == 1u8),
                ((x >> 6u8) & 1u8 == 1u8) == ((y >> 6u8) & 1u8 == 1u8),
                ((x >> 7u8) & 1u8 == 1u8) == ((y >> 7u8) & 1u8 == 1u8),
        ;
    }
    assert(a =~= b);
}

/// The distance of two bit sequences is the number of places at which they differ.
pub proof fn law_distance_counts_places(a: Seq<bool>, b: Seq<bool>)
    requires
        a.len() == b.len(),
    ensures
        differing(a, b) == tally::tally(a.len() as int, |i: int| a[i] != b[i]),
    decreases a.len(),
{
    if a.len() > 0 {
        let n = a.len() - 1;
        law_distance_counts_places(a.drop_last(), b.drop_last());
        tally::lemma_tally_of_same(
            n,
            |i: int| a.drop_last()[i] != b.drop_last()[i],
            |i: int| a[i] != b[i],
        );
    }
}

} // verus!
