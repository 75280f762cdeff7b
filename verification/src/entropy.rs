//! Persistent entropy: the secret seeds of a landfill, and the keyed
//! checksums made with them.

use vstd::prelude::*;
use std::hash::Hash;
use std::hash::Hasher;
use rand::Rng;
use seahash::SeaHasher;
use crate::errors::FillError;
use crate::helpers::{decode_u64, encode_u64, lemma_u64_round_trip, u64_bytes, u64_from, ByteOrder};
use crate::landfill::{GuardedLandfill, Landfill, Substructure};

verus! {

/// Number of bytes that the seeds take in their file.
pub const ENTROPY_SIZE: usize = 32;

/// What a `seahash::SeaHasher` made with the seeds `k1` to `k4` returns
/// once `value` has been hashed into it.
pub uninterp spec fn sea_hash_u64(k1: u64, k2: u64, k3: u64, k4: u64, value: u64) -> u64;

/// What a `seahash::SeaHasher` made with the seeds `k1` to `k4` returns
/// when nothing has been written to it.
pub uninterp spec fn sea_hash_unit(k1: u64, k2: u64, k3: u64, k4: u64) -> u64;

/// What a `seahash::SeaHasher` made with the seeds `k1` to `k4` returns
/// once `bytes` have been written to it.
pub uninterp spec fn sea_hash_bytes(k1: u64, k2: u64, k3: u64, k4: u64, bytes: Seq<u8>) -> u64;

/// Makes a `seahash::SeaHasher` with `SeaHasher::with_seeds`, writes `bytes`
/// to it with `write` and returns what `finish` gives. The hasher keeps no
/// state besides seeds and input, so the result is a function of the seeds
/// and the bytes.
#[verifier::external_body]
fn seeded_hash_bytes(k1: u64, k2: u64, k3: u64, k4: u64, bytes: &[u8]) -> (r: u64)
    ensures
        r == sea_hash_bytes(k1, k2, k3, k4, bytes@),
{
    let mut hasher = SeaHasher::with_seeds(k1, k2, k3, k4);
    hasher.write(bytes);
    hasher.finish()
}

/// Makes a `seahash::SeaHasher` with `SeaHasher::with_seeds`, hashes `value`
/// into it and returns what `finish` gives. The hasher keeps no state
/// besides seeds and input, so the result is a function of the five
/// numbers.
#[verifier::external_body]
fn seeded_hash_u64(k1: u64, k2: u64, k3: u64, k4: u64, value: u64) -> (r: u64)
    ensures
        r == sea_hash_u64(k1, k2, k3, k4, value),
{
    let mut hasher = SeaHasher::with_seeds(k1, k2, k3, k4);
    value.hash(&mut hasher);
    hasher.finish()
}

/// Makes a `seahash::SeaHasher` with `SeaHasher::with_seeds`, hashes the
/// unit value into it, which writes nothing, and returns what `finish`
/// gives: a function of the four seeds.
#[verifier::external_body]
fn seeded_hash_unit(k1: u64, k2: u64, k3: u64, k4: u64) -> (r: u64)
    ensures
        r == sea_hash_unit(k1, k2, k3, k4),
{
    let mut hasher = SeaHasher::with_seeds(k1, k2, k3, k4);
    ().hash(&mut hasher);
    hasher.finish()
}

/// Makes a `seahash::SeaHasher` with `SeaHasher::with_seeds`, hashes `t`
/// into it and returns what `finish` gives. What `t` writes into the hasher
/// is up to its type, so nothing is claimed of the result.
#[verifier::external_body]
fn seeded_hash<T: Hash>(k1: u64, k2: u64, k3: u64, k4: u64, t: &T) -> (r: u64)
{
    let mut hasher = SeaHasher::with_seeds(k1, k2, k3, k4);
    t.hash(&mut hasher);
    hasher.finish()
}

/// Makes a `seahash::SeaHasher` with `SeaHasher::new`, which seeds it with
/// the four constants of the crate, hashes `value` into it and returns what
/// `finish` gives.
#[verifier::external_body]
pub(crate) fn default_hash_u64(value: u64) -> (r: u64)
    ensures
        r == sea_hash_u64(
            0x16f11fe89b0d677c,
            0xb480a793d8e6c86c,
            0x6fe2e5aaf078ebc9,
            0x14f994a4c5259381,
            value,
        ),
{
    let mut hasher = SeaHasher::new();
    value.hash(&mut hasher);
    hasher.finish()
}

/// Draws a number from `rand::thread_rng`. Any number may come.
#[verifier::external_body]
fn random_u64() -> (r: u64)
{
    rand::thread_rng().gen()
}

/// The four seeds of a landfill, as they lie in its entropy file.
#[derive(Clone, Copy, Debug)]
pub struct StaticHeader {
    pub key_a: u64,
    pub key_b: u64,
    pub key_c: u64,
    pub key_d: u64,
}

/// The bytes of an entropy file that holds `header`.
pub open spec fn header_bytes(order: ByteOrder, header: StaticHeader) -> Seq<u8> {
    u64_bytes(order, header.key_a) + u64_bytes(order, header.key_b) + u64_bytes(
        order,
        header.key_c,
    ) + u64_bytes(order, header.key_d)
}

/// The seeds that the first 32 bytes of an entropy file hold.
pub open spec fn header_from(order: ByteOrder, bytes: Seq<u8>) -> StaticHeader {
    StaticHeader {
        key_a: u64_from(order, bytes.subrange(0, 8)),
        key_b: u64_from(order, bytes.subrange(8, 16)),
        key_c: u64_from(order, bytes.subrange(16, 24)),
        key_d: u64_from(order, bytes.subrange(24, 32)),
    }
}

/// Seeds that are written to a file are read back as they were.
pub proof fn lemma_header_round_trip(order: ByteOrder, header: StaticHeader)
    ensures
        header_bytes(order, header).len() == ENTROPY_SIZE,
        header_from(order, header_bytes(order, header)) == header,
{
    lemma_u64_round_trip(order, header.key_a);
    lemma_u64_round_trip(order, header.key_b);
    lemma_u64_round_trip(order, header.key_c);
    lemma_u64_round_trip(order, header.key_d);
    let bytes = header_bytes(order, header);
    assert(bytes.subrange(0, 8) =~= u64_bytes(order, header.key_a));
    assert(bytes.subrange(8, 16) =~= u64_bytes(order, header.key_b));
    assert(bytes.subrange(16, 24) =~= u64_bytes(order, header.key_c));
    assert(bytes.subrange(24, 32) =~= u64_bytes(order, header.key_d));
}

/// A keyed hasher.
#[derive(Clone, Copy)]
pub struct CheckSummer {
    key_a: u64,
    key_b: u64,
    key_c: u64,
    key_d: u64,
}

impl CheckSummer {
    /// The four keys.
    pub closed spec fn keys(&self) -> StaticHeader {
        StaticHeader {
            key_a: self.key_a,
            key_b: self.key_b,
            key_c: self.key_c,
            key_d: self.key_d,
        }
    }

    /// A hasher with the given keys.
    pub fn new(key_a: u64, key_b: u64, key_c: u64, key_d: u64) -> (r: Self)
        ensures
            r.keys() == (StaticHeader { key_a, key_b, key_c, key_d }),
    {
        CheckSummer { key_a, key_b, key_c, key_d }
    }

    /// A hasher with the keys of `header`.
    pub fn new_from_header(header: &StaticHeader) -> (r: Self)
        ensures
            r.keys() == *header,
    {
        CheckSummer {
            key_a: header.key_a,
            key_b: header.key_b,
            key_c: header.key_c,
            key_d: header.key_d,
        }
    }

    /// The keyed checksum of any value that can be hashed.
    pub fn checksum<T: Hash>(&self, t: T) -> u64 {
        seeded_hash(self.key_a, self.key_b, self.key_c, self.key_d, &t)
    }

    /// The keyed checksum of a number.
    pub fn checksum_u64(&self, value: u64) -> (r: u64)
        ensures
            r == keyed_hash(self.keys(), value),
    {
        seeded_hash_u64(self.key_a, self.key_b, self.key_c, self.key_d, value)
    }

    /// The lower half of the keyed checksum of a value: what
    /// [`lower_half`] makes of what [`Self::checksum`] returns.
    pub fn checksum_truncated<T: Hash>(&self, t: T) -> u32 {
        let whole: u64 = self.checksum(t);
        lower_half(whole)
    }
}

/// The lower half of the checksum `whole`: its lower 32 bits.
pub fn lower_half(whole: u64) -> (r: u32)
    ensures
        r == whole % 0x1_0000_0000,
        r == (whole & 0xffff_ffff) as u32,
{
    assert(whole & 0xffff_ffff == whole % 0x1_0000_0000) by (bit_vector);
    (whole & 0xffff_ffff) as u32
}

/// The checksum of `value` under the keys `keys`.
pub open spec fn keyed_hash(keys: StaticHeader, value: u64) -> u64 {
    sea_hash_u64(keys.key_a, keys.key_b, keys.key_c, keys.key_d, value)
}

/// The checksum of `bytes` under the keys `keys`.
pub open spec fn keyed_bytes_hash(keys: StaticHeader, bytes: Seq<u8>) -> u64 {
    sea_hash_bytes(keys.key_a, keys.key_b, keys.key_c, keys.key_d, bytes)
}

/// The fingerprint of the keys `keys`: the lower half of the checksum of
/// nothing.
pub open spec fn keyed_tag(keys: StaticHeader) -> u32 {
    (sea_hash_unit(keys.key_a, keys.key_b, keys.key_c, keys.key_d) & 0xffff_ffff) as u32
}

/// A Tag that can be used to loosely identify this specific instantiation of
/// entropy.
#[derive(Clone, Copy, Debug, PartialEq, Eq, Structural)]
pub struct Tag(pub u32);

/// A once-initialized file carrying pseudorandom data
///
/// This can be used to have a persistent source of entropy, that will be
/// the same each time the database is opened, but differ between databases
///
/// Useful for DOS-resistant hashmaps etc
#[derive(Clone, Copy, Debug)]
pub struct Entropy {
    seeds: StaticHeader,
}

impl Entropy {
    /// The seeds.
    pub closed spec fn seeds(&self) -> StaticHeader {
        self.seeds
    }

    /// The entropy that an entropy file holds in its first 32 bytes.
    pub fn from_bytes(order: ByteOrder, bytes: &[u8]) -> (r: Entropy)
        requires
            bytes@.len() >= ENTROPY_SIZE,
        ensures
            r.seeds() == header_from(order, bytes@),
    {
        Entropy {
            seeds: StaticHeader {
                key_a: decode_u64(order, vstd::slice::slice_subrange(bytes, 0, 8)),
                key_b: decode_u64(order, vstd::slice::slice_subrange(bytes, 8, 16)),
                key_c: decode_u64(order, vstd::slice::slice_subrange(bytes, 16, 24)),
                key_d: decode_u64(order, vstd::slice::slice_subrange(bytes, 24, 32)),
            },
        }
    }

    /// The 32 bytes that stand for this entropy in a file.
    pub fn to_bytes(&self, order: ByteOrder) -> (r: Vec<u8>)
        ensures
            r@ == header_bytes(order, self.seeds()),
            r@.len() == ENTROPY_SIZE,
    {
        let mut bytes = encode_u64(order, self.seeds.key_a);
        let mut b = encode_u64(order, self.seeds.key_b);
        let mut c = encode_u64(order, self.seeds.key_c);
        let mut d = encode_u64(order, self.seeds.key_d);
        bytes.append(&mut b);
        bytes.append(&mut c);
        bytes.append(&mut d);
        bytes
    }

    /// Fresh entropy, drawn at random.
    pub fn generate() -> Entropy {
        Entropy {
            seeds: StaticHeader {
                key_a: random_u64(),
                key_b: random_u64(),
                key_c: random_u64(),
                key_d: random_u64(),
            },
        }
    }

    /// Entropy that lives in memory only.
    pub fn ephemeral() -> Entropy {
        Self::generate()
    }

    /// The seeds.
    pub fn header(&self) -> (r: StaticHeader)
        ensures
            r == self.seeds(),
    {
        self.seeds
    }

    /// Calculate a checksum of value `T` specific to this entropy set
    pub fn checksum<T: Hash>(&self, t: &T) -> u64 {
        seeded_hash(self.seeds.key_a, self.seeds.key_b, self.seeds.key_c, self.seeds.key_d, t)
    }

    /// Calculate the checksum of a number specific to this entropy set
    pub fn checksum_u64(&self, value: u64) -> (r: u64)
        ensures
            r == keyed_hash(self.seeds(), value),
    {
        seeded_hash_u64(
            self.seeds.key_a,
            self.seeds.key_b,
            self.seeds.key_c,
            self.seeds.key_d,
            value,
        )
    }

    /// Calculate the checksum of a run of bytes specific to this entropy
    /// set
    pub fn checksum_bytes(&self, bytes: &[u8]) -> (r: u64)
        ensures
            r == keyed_bytes_hash(self.seeds(), bytes@),
    {
        seeded_hash_bytes(
            self.seeds.key_a,
            self.seeds.key_b,
            self.seeds.key_c,
            self.seeds.key_d,
            bytes,
        )
    }

    /// Generate a nonce, note this is not influenced in any way by the data,
    /// and is pseudorandom
    pub fn nonce(&self) -> u64 {
        random_u64()
    }

    /// Return the tag loosely identifying this entropy set
    pub fn tag(&self) -> (r: Tag)
        ensures
            r.0 == keyed_tag(self.seeds()),
    {
        let whole: u64 = seeded_hash_unit(
            self.seeds.key_a,
            self.seeds.key_b,
            self.seeds.key_c,
            self.seeds.key_d,
        );
        Tag(lower_half(whole))
    }
}

/// The bytes of an entropy file with seeds drawn at random.
fn fresh_seed_bytes(order: ByteOrder) -> (r: Vec<u8>)
    ensures
        r@.len() == ENTROPY_SIZE,
{
    Entropy::generate().to_bytes(order)
}

impl Substructure for Entropy {
    open spec fn wf(&self) -> bool {
        true
    }

    /// The seeds are a value in memory: there is nothing to flush.
    open spec fn file_backed(&self) -> bool {
        false
    }

    /// With a landfill on disk the seeds are those that the file of the
    /// name `scope` holds from now on.
    open spec fn opened(&self, was: Landfill, now: Landfill, scope: Seq<char>) -> bool {
        &&& now.same_claims(was)
        &&& if was.present(scope) {
            &&& now.present(scope)
            &&& !now.fresh(scope)
            &&& self.seeds() == header_from(
                was.byte_order(),
                now.contents(scope).subrange(0, ENTROPY_SIZE as int),
            )
            &&& now.files_but(was, scope)
            &&& !was.fresh(scope) ==> now.same_files(was)
        } else {
            was.ephemeral_spec() && now.same_files(was)
        }
    }

    /// The file is asked for where a landfill on disk has none; a file
    /// that is too short is refused; a new file may fail to be flushed.
    open spec fn refused(e: FillError, was: Landfill, scope: Seq<char>) -> bool {
        match e {
            FillError::Unmapped { name, size } => {
                &&& name@ == scope
                &&& size == ENTROPY_SIZE
                &&& !was.present(scope)
                &&& !was.ephemeral_spec()
            },
            FillError::Truncated => was.present(scope) && was.contents(scope).len()
                < ENTROPY_SIZE,
            FillError::Io(_) => was.present(scope) && was.fresh(scope),
            _ => false,
        }
    }

    /// Reads the seeds from the file that bears the name of `scope`, or
    /// draws new ones and writes them to that file.
    fn init(landfill: &mut Landfill, scope: GuardedLandfill) -> (r: Result<Self, FillError>)
    {
        let order = landfill.order();
        let name = scope.inner();
        let root = GuardedLandfill::root();
        let draw = || -> (bytes: Vec<u8>)
            ensures
                bytes@.len() == ENTROPY_SIZE,
            { fresh_seed_bytes(order) };
        proof {
            assert(crate::landfill::joined(root@, name@) =~= name@);
        }
        let read = landfill.get_static_or_init(&root, name.as_str(), ENTROPY_SIZE, draw);
        proof {
            assert(old(landfill).claims().is_prefix_of(landfill.claims()));
            assert forall|n: Seq<char>| #[trigger] landfill.present(n)
                implies old(landfill).present(n) by {
                if n != name@ {
                    assert(landfill.present(n) == old(landfill).present(n));
                }
            }
        }
        match read {
            Ok(bytes) => {
                proof {
                    let held = bytes@;
                    assert(held.subrange(0, 8) =~= held.subrange(0, 32).subrange(0, 8));
                    assert(held.subrange(8, 16) =~= held.subrange(0, 32).subrange(8, 16));
                    assert(held.subrange(16, 24) =~= held.subrange(0, 32).subrange(16, 24));
                    assert(held.subrange(24, 32) =~= held.subrange(0, 32).subrange(24, 32));
                    assert(held.subrange(0, 32) =~= held);
                    if old(landfill).present(name@) {
                        assert(landfill.present(name@));
                        assert(!landfill.fresh(name@));
                        assert(landfill.contents(name@).subrange(0, ENTROPY_SIZE as int) == held);
                    }
                }
                Ok(Entropy::from_bytes(order, bytes.as_slice()))
            },
            Err(e) => Err(e),
        }
    }

    fn flush(&self) -> (r: Result<(), FillError>)
        ensures
            r is Ok,
    {
        Ok(())
    }
}

} // verus!
