//! Bucket keys and the hashes behind them.
use crate::bytes;
use vstd::prelude::*;

verus! {

/// The outside type `blake3::Hasher`: the state of an incremental BLAKE3 hash.
#[verifier::external_type_specification]
#[verifier::external_body]
pub struct ExBlake3Hasher(blake3::Hasher);

/// The bytes that a hasher has been fed.
pub uninterp spec fn absorbed(h: blake3::Hasher) -> Seq<u8>;

/// Whether a hasher computes the regular hash of its input: it has no key and
/// no derivation context, and its input starts at offset zero.
pub uninterp spec fn regular(h: blake3::Hasher) -> bool;

/// The regular 32-byte BLAKE3 hash of an input.
pub uninterp spec fn blake3_digest(input: Seq<u8>) -> Seq<u8>;

/// Calls `blake3::Hasher::new`, which starts the regular hash of an empty
/// input.
#[verifier::external_body]
fn blake3_new() -> (h: blake3::Hasher)
    ensures
        regular(h),
        absorbed(h) == Seq::<u8>::empty(),
{
    blake3::Hasher::new()
}

/// Calls `blake3::Hasher::update`, which appends bytes to the input and
/// changes nothing else about the hash.
#[verifier::external_body]
fn blake3_update(h: &mut blake3::Hasher, input: &[u8])
    requires
        regular(*old(h)),
    ensures
        regular(*final(h)),
        absorbed(*final(h)) == absorbed(*old(h)) + input@,
    no_unwind
{
    h.update(input);
}

/// Calls `blake3::Hasher::finalize`, which returns the hash of the input so
/// far: the same 32 bytes for the same input, however it was cut into pieces.
#[verifier::external_body]
fn blake3_finalize(h: &blake3::Hasher) -> (hash: [u8; 32])
    requires
        regular(*h),
    ensures
        hash@ == blake3_digest(absorbed(*h)),
{
    *h.finalize().as_bytes()
}

/// Calls the `Clone` impl of `blake3::Hasher`, which copies the whole state.
#[verifier::external_body]
fn blake3_clone(h: &blake3::Hasher) -> (copy: blake3::Hasher)
    ensures
        copy == *h,
{
    h.clone()
}

/// A fully derived bucket identity.
///
/// 128 bits of a BLAKE3 hash over the policy identity and the evaluated key.
/// Collision resistance matters: bucket state is shared through the datastore
/// and the hashed material holds values that users control, so a collision
/// that can be constructed would let one principal drain another's bucket.
#[derive(Clone, Copy, Debug, PartialEq, Eq, Hash)]
pub struct BucketKey(pub [u8; 16]);

/// Incremental [`BucketKey`] builder.
///
/// All integer writes are little-endian, so the derived key does not depend on
/// the host's byte order or pointer width. The byte stream, and therefore the
/// derived keys, are a persistence format.
pub struct BucketKeyHasher {
    inner: blake3::Hasher,
}

impl View for BucketKeyHasher {
    type V = Seq<u8>;

    /// The byte stream that was written.
    closed spec fn view(&self) -> Seq<u8> {
        absorbed(self.inner)
    }
}

impl Clone for BucketKeyHasher {
    /// A builder in the same state, which goes on by itself.
    fn clone(&self) -> (hasher: Self)
        ensures
            hasher@ == self@,
    {
        proof {
            use_type_invariant(self);
        }
        BucketKeyHasher { inner: blake3_clone(&self.inner) }
    }
}

impl BucketKeyHasher {
    #[verifier::type_invariant]
    spec fn is_regular(self) -> bool {
        regular(self.inner)
    }

    /// A builder that was fed nothing.
    pub fn new() -> (hasher: Self)
        ensures
            hasher@ == Seq::<u8>::empty(),
    {
        BucketKeyHasher { inner: blake3_new() }
    }

    /// The key of the stream so far: the first 16 bytes of its hash.
    pub fn finalize(&self) -> (key: BucketKey)
        ensures
            key.0@ == blake3_digest(self@).subrange(0, 16),
    {
        proof {
            use_type_invariant(self);
        }
        let hash = blake3_finalize(&self.inner);
        let mut out: [u8; 16] = [0u8; 16];
        let mut i: usize = 0;
        while i < 16
            invariant
                i <= 16,
                forall|j: int| 0 <= j < i ==> out@[j] == hash@[j],
            decreases 16 - i,
        {
            out[i] = hash[i];
            i = i + 1;
        }
        assert(out@ =~= hash@.subrange(0, 16));
        BucketKey(out)
    }

    /// The stream's hash as an integer: its first eight bytes, little-endian.
    pub fn finish(&self) -> (hash: u64)
        ensures
            hash == bytes::le_value(blake3_digest(self@).subrange(0, 8)),
    {
        proof {
            use_type_invariant(self);
        }
        let hash = blake3_finalize(&self.inner);
        bytes::read_le(hash.as_slice())
    }

    /// Writes bytes as they are.
    pub fn write(&mut self, input: &[u8])
        ensures
            final(self)@ == old(self)@ + input@,
    {
        proof {
            use_type_invariant(&*self);
        }
        blake3_update(&mut self.inner, input);
    }

    /// Writes the lowest `n` bytes of an integer, little-endian.
    fn write_le(&mut self, i: u128, n: u32)
        ensures
            final(self)@ == old(self)@ + bytes::le_bytes(i as nat, n as nat),
    {
        let mut out: Vec<u8> = Vec::new();
        bytes::push_le(&mut out, i, n);
        assert(out@ =~= bytes::le_bytes(i as nat, n as nat));
        self.write(out.as_slice());
    }

    /// Writes one byte.
    pub fn write_u8(&mut self, i: u8)
        ensures
            final(self)@ == old(self)@.push(i),
    {
        self.write_le(i as u128, 1);
        proof {
            reveal_with_fuel(bytes::le_bytes, 2);
            assert(bytes::le_bytes(i as nat, 1) =~= seq![i]);
            assert(self@ =~= old(self)@.push(i));
        }
    }

    /// Writes two bytes, little-endian.
    pub fn write_u16(&mut self, i: u16)
        ensures
            final(self)@ == old(self)@ + bytes::le_bytes(i as nat, 2),
    {
        self.write_le(i as u128, 2);
    }

    /// Writes four bytes, little-endian.
    pub fn write_u32(&mut self, i: u32)
        ensures
            final(self)@ == old(self)@ + bytes::le_bytes(i as nat, 4),
    {
        self.write_le(i as u128, 4);
    }

    /// Writes eight bytes, little-endian.
    pub fn write_u64(&mut self, i: u64)
        ensures
            final(self)@ == old(self)@ + bytes::le_bytes(i as nat, 8),
    {
        self.write_le(i as u128, 8);
    }

    /// Writes sixteen bytes, little-endian.
    pub fn write_u128(&mut self, i: u128)
        ensures
            final(self)@ == old(self)@ + bytes::le_bytes(i as nat, 16),
    {
        self.write_le(i, 16);
    }

    /// Writes eight bytes whatever the pointer width is.
    pub fn write_usize(&mut self, i: usize)
        ensures
            final(self)@ == old(self)@ + bytes::le_bytes(i as nat, 8),
    {
        self.write_u64(i as u64);
    }

    /// Writes the two's complement.
    pub fn write_i8(&mut self, i: i8)
        ensures
            final(self)@ == old(self)@ + bytes::le_bytes(bytes::twos_complement(i as int, 1), 1),
    {
        proof {
            bytes::lemma_limits();
            assert(i as u8 == if i < 0 { 0x100 + i } else { i as int }) by (bit_vector);
        }
        self.write_le(i as u8 as u128, 1);
    }

    /// Writes the two's complement.
    pub fn write_i16(&mut self, i: i16)
        ensures
            final(self)@ == old(self)@ + bytes::le_bytes(bytes::twos_complement(i as int, 2), 2),
    {
        proof {
            bytes::lemma_limits();
            assert(i as u16 == if i < 0 { 0x1_0000 + i } else { i as int }) by (bit_vector);
        }
        self.write_u16(i as u16);
    }

    /// Writes the two's complement.
    pub fn write_i32(&mut self, i: i32)
        ensures
            final(self)@ == old(self)@ + bytes::le_bytes(bytes::twos_complement(i as int, 4), 4),
    {
        proof {
            bytes::lemma_limits();
            assert(i as u32 == if i < 0 { 0x1_0000_0000 + i } else { i as int }) by (bit_vector);
        }
        self.write_u32(i as u32);
    }

    /// Writes the two's complement.
    pub fn write_i64(&mut self, i: i64)
        ensures
            final(self)@ == old(self)@ + bytes::le_bytes(bytes::twos_complement(i as int, 8), 8),
    {
        proof {
            bytes::lemma_limits();
            assert(i as u64 == if i < 0 { 0x1_0000_0000_0000_0000 + i } else { i as int }) by (bit_vector);
        }
        self.write_u64(i as u64);
    }

    /// Writes the two's complement.
    pub fn write_i128(&mut self, i: i128)
        ensures
            final(self)@ == old(self)@ + bytes::le_bytes(bytes::twos_complement(i as int, 16), 16),
    {
        proof {
            bytes::lemma_limits();
            assert(i as u128 == if i < 0 { 0x1_0000_0000_0000_0000 * 0x1_0000_0000_0000_0000 + i } else { i as int }) by (bit_vector);
        }
        self.write_u128(i as u128);
    }

    /// Writes the two's complement in eight bytes whatever the pointer width
    /// is.
    pub fn write_isize(&mut self, i: isize)
        ensures
            final(self)@ == old(self)@ + bytes::le_bytes(bytes::twos_complement(i as int, 8), 8),
    {
        self.write_i64(i as i64);
    }
}

/// FNV-1a over bytes, from a given state.
pub open spec fn fnv(state: u64, input: Seq<u8>) -> u64
    decreases input.len(),
{
    if input.len() == 0 {
        state
    } else {
        let mixed = fnv(state, input.drop_last()) ^ (input.last() as u64);
        ((mixed * 0x100000001b3) % 0x1_0000_0000_0000_0000) as u64
    }
}

/// FNV-1a, used only for the keys of the in-memory plan cache, where a hit is
/// verified against the stored identity: a collision costs a rebuild and
/// nothing else.
#[derive(Debug)]
pub struct StableHasher {
    hash: u64,
}

impl View for StableHasher {
    type V = u64;

    closed spec fn view(&self) -> u64 {
        self.hash
    }
}

impl Default for StableHasher {
    fn default() -> (hasher: Self)
        ensures
            hasher@ == 0xcbf29ce484222325,
    {
        StableHasher { hash: 0xcbf29ce484222325 }
    }
}

impl StableHasher {
    /// A hasher that was fed nothing.
    pub fn new() -> (hasher: Self)
        ensures
            hasher@ == 0xcbf29ce484222325,
    {
        StableHasher::default()
    }

    /// The hash of what was written.
    pub fn finish(&self) -> (hash: u64)
        ensures
            hash == self@,
    {
        self.hash
    }

    /// Mixes bytes into the hash.
    pub fn write(&mut self, input: &[u8])
        ensures
            final(self)@ == fnv(old(self)@, input@),
    {
        let mut i: usize = 0;
        while i < input.len()
            invariant
                i <= input@.len(),
                self@ == fnv(old(self)@, input@.subrange(0, i as int)),
            decreases input@.len() - i,
        {
            proof {
                let next = input@.subrange(0, i + 1);
                assert(next.drop_last() =~= input@.subrange(0, i as int));
                assert(next.last() == input@[i as int]);
            }
            self.hash = (self.hash ^ input[i] as u64).wrapping_mul(0x100000001b3);
            i = i + 1;
        }
        assert(input@.subrange(0, i as int) =~= input@);
    }
}

/// Writing two pieces one after the other is writing them joined.
pub proof fn lemma_fnv_joins(state: u64, a: Seq<u8>, b: Seq<u8>)
    ensures
        fnv(fnv(state, a), b) == fnv(state, a + b),
    decreases b.len(),
{
    if b.len() == 0 {
        assert(a + b =~= a);
    } else {
        lemma_fnv_joins(state, a, b.drop_last());
        assert((a + b).drop_last() =~= a + b.drop_last());
    }
}

/// Writing one byte is mixing it into the lowest byte of the hash and then
/// multiplying by the sum of two to the power 40, two to the power 8 and 179,
/// modulo two to the power 64. Writing nothing changes nothing.
pub proof fn lemma_fnv_of_one(state: u64, byte: u8)
    ensures
        fnv(state, seq![byte]) as int == ((state ^ (byte as u64)) as int * (0x100_0000_0000 + 0x100
            + 179)) % 0x1_0000_0000_0000_0000,
        fnv(state, Seq::empty()) == state,
{
    reveal_with_fuel(fnv, 2);
    assert(seq![byte].drop_last() =~= Seq::<u8>::empty());
}

} // verus!
