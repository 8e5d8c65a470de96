use vstd::prelude::*;

use sha2::Digest;

verus! {

/// The digest algorithms a tree or proof can be built over.
///
/// The digest choice is fixed per tree; tree and proof must agree exactly.
#[derive(Debug, Clone, Copy, PartialEq, Eq, Structural)]
pub enum HashAlg {
    /// SHA-1, 20-byte output.
    Sha1,
    /// SHA-256, 32-byte output.
    Sha256,
    /// SHA3-256, 32-byte output.
    Sha3_256,
    /// BLAKE2s-256, 32-byte output.
    Blake2s256,
}

/// The SHA-1 digest of a byte sequence, as computed by the `sha1` crate.
pub uninterp spec fn sha1_of(bytes: Seq<u8>) -> Seq<u8>;

/// The SHA-256 digest of a byte sequence, as computed by the `sha2` crate.
pub uninterp spec fn sha256_of(bytes: Seq<u8>) -> Seq<u8>;

/// The SHA3-256 digest of a byte sequence, as computed by the `sha3` crate.
pub uninterp spec fn sha3_256_of(bytes: Seq<u8>) -> Seq<u8>;

/// The BLAKE2s-256 digest of a byte sequence, as computed by the `blake2` crate.
pub uninterp spec fn blake2s256_of(bytes: Seq<u8>) -> Seq<u8>;

/// The number of bytes in a digest of the given algorithm.
pub open spec fn output_len(alg: HashAlg) -> nat {
    match alg {
        HashAlg::Sha1 => 20,
        HashAlg::Sha256 => 32,
        HashAlg::Sha3_256 => 32,
        HashAlg::Blake2s256 => 32,
    }
}

/// The digest of a byte sequence under the given algorithm.
pub open spec fn digest_of(alg: HashAlg, bytes: Seq<u8>) -> Seq<u8> {
    match alg {
        HashAlg::Sha1 => sha1_of(bytes),
        HashAlg::Sha256 => sha256_of(bytes),
        HashAlg::Sha3_256 => sha3_256_of(bytes),
        HashAlg::Blake2s256 => blake2s256_of(bytes),
    }
}

/// Relies on sha1::Sha1::digest: a one-shot SHA-1 digest of the input bytes,
/// a function of those bytes alone, 20 bytes long.
#[verifier::external_body]
fn sha1_digest(data: &[u8]) -> (r: Vec<u8>)
    ensures
        r@ == sha1_of(data@),
        r@.len() == 20,
{
    sha1::Sha1::digest(data).to_vec()
}

/// Relies on sha2::Sha256::digest: a one-shot SHA-256 digest of the input bytes,
/// a function of those bytes alone, 32 bytes long.
#[verifier::external_body]
fn sha256_digest(data: &[u8]) -> (r: Vec<u8>)
    ensures
        r@ == sha256_of(data@),
        r@.len() == 32,
{
    sha2::Sha256::digest(data).to_vec()
}

/// Relies on sha3::Sha3_256::digest: a one-shot SHA3-256 digest of the input bytes,
/// a function of those bytes alone, 32 bytes long.
#[verifier::external_body]
fn sha3_256_digest(data: &[u8]) -> (r: Vec<u8>)
    ensures
        r@ == sha3_256_of(data@),
        r@.len() == 32,
{
    sha3::Sha3_256::digest(data).to_vec()
}

/// Relies on blake2::Blake2s256::digest: a one-shot BLAKE2s-256 digest of the
/// input bytes, a function of those bytes alone, 32 bytes long.
#[verifier::external_body]
fn blake2s256_digest(data: &[u8]) -> (r: Vec<u8>)
    ensures
        r@ == blake2s256_of(data@),
        r@.len() == 32,
{
    blake2::Blake2s256::digest(data).to_vec()
}

/// A stateless, cheap-to-clone adapter over one digest algorithm.
///
/// `concat` and `concat_slice` hash the byte concatenation of their inputs,
/// so `concat(a, b) == digest(a ‖ b)` holds by construction.
#[derive(Debug, Clone, Copy, PartialEq, Eq, Structural)]
pub struct MrkleHasher {
    alg: HashAlg,
}

impl MrkleHasher {
    /// The algorithm this hasher computes.
    pub closed spec fn spec_alg(&self) -> HashAlg {
        self.alg
    }

    /// Construct a hasher over the given digest algorithm.
    pub fn new(alg: HashAlg) -> (r: Self)
        ensures
            r.spec_alg() == alg,
    {
        MrkleHasher { alg }
    }

    /// The algorithm this hasher computes.
    pub fn alg(&self) -> (r: HashAlg)
        ensures
            r == self.spec_alg(),
    {
        self.alg
    }

    /// One-shot digest of a byte buffer under the given algorithm.
    pub fn digest(alg: HashAlg, data: &[u8]) -> (r: Vec<u8>)
        ensures
            r@ == digest_of(alg, data@),
            r@.len() == output_len(alg),
    {
        match alg {
            HashAlg::Sha1 => sha1_digest(data),
            HashAlg::Sha256 => sha256_digest(data),
            HashAlg::Sha3_256 => sha3_256_digest(data),
            HashAlg::Blake2s256 => blake2s256_digest(data),
        }
    }

    /// One-shot digest of a byte buffer.
    pub fn hash(&self, data: &[u8]) -> (r: Vec<u8>)
        ensures
            r@ == digest_of(self.spec_alg(), data@),
            r@.len() == output_len(self.spec_alg()),
    {
        MrkleHasher::digest(self.alg, data)
    }

    /// The byte length of this hasher's digests.
    pub fn output_size(&self) -> (r: usize)
        ensures
            r == output_len(self.spec_alg()),
    {
        match self.alg {
            HashAlg::Sha1 => 20,
            HashAlg::Sha256 => 32,
            HashAlg::Sha3_256 => 32,
            HashAlg::Blake2s256 => 32,
        }
    }

    /// Digest of the concatenation of two digests: `digest(a ‖ b)`.
    pub fn concat(&self, a: &Vec<u8>, b: &Vec<u8>) -> (r: Vec<u8>)
        ensures
            r@ == digest_of(self.spec_alg(), a@ + b@),
            r@.len() == output_len(self.spec_alg()),
    {
        let mut buf: Vec<u8> = Vec::new();
        buf.extend_from_slice(a.as_slice());
        buf.extend_from_slice(b.as_slice());
        assert(buf@ == a@ + b@);
        self.hash(buf.as_slice())
    }

    /// Digest of the concatenation of a sequence of digests:
    /// `digest(h_0 ‖ h_1 ‖ … ‖ h_k)`.
    pub fn concat_slice(&self, hashes: &Vec<Vec<u8>>) -> (r: Vec<u8>)
        ensures
            r@ == digest_of(self.spec_alg(), concat_bytes(hashes@.map_values(|h: Vec<u8>| h@))),
            r@.len() == output_len(self.spec_alg()),
    {
        let ghost all = hashes@.map_values(|h: Vec<u8>| h@);
        let mut buf: Vec<u8> = Vec::new();
        let n = hashes.len();
        assert(concat_bytes(all.subrange(0, 0)) =~= Seq::<u8>::empty());
        for i in 0..n
            invariant
                n == hashes@.len(),
                all == hashes@.map_values(|h: Vec<u8>| h@),
                buf@ == concat_bytes(all.subrange(0, i as int)),
        {
            buf.extend_from_slice(hashes[i].as_slice());
            proof {
                lemma_concat_bytes_push(all.subrange(0, i as int), all[i as int]);
                assert(all.subrange(0, i as int).push(all[i as int]) =~= all.subrange(
                    0,
                    i + 1 as int,
                ));
            }
        }
        proof {
            assert(all.subrange(0, n as int) =~= all);
        }
        self.hash(buf.as_slice())
    }
}

/// The concatenation of a sequence of byte sequences, in order.
pub open spec fn concat_bytes(parts: Seq<Seq<u8>>) -> Seq<u8>
    decreases parts.len(),
{
    if parts.len() == 0 {
        Seq::empty()
    } else {
        concat_bytes(parts.drop_last()) + parts.last()
    }
}

/// Appending one more part concatenates its bytes at the end.
pub proof fn lemma_concat_bytes_push(parts: Seq<Seq<u8>>, part: Seq<u8>)
    ensures
        concat_bytes(parts.push(part)) == concat_bytes(parts) + part,
{
    assert(parts.push(part).drop_last() =~= parts);
    assert(parts.push(part).last() == part);
}

} // verus!
