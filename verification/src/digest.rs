//! Hashing the bytes of a pack.

use crate::hash::HashKind;
use crate::placement::MAX_PACK_LEN;
use sha1::Digest;
use vstd::prelude::*;

verus! {

/// `sha1::Sha1`, a hasher for SHA-1.
#[verifier::external_type_specification]
#[verifier::external_body]
pub struct ExSha1(sha1::Sha1);

/// `sha2::Sha256`, a hasher for SHA-256.
#[verifier::external_type_specification]
#[verifier::external_body]
pub struct ExSha256(sha2::Sha256);

/// The bytes that a SHA-1 hasher has taken in.
pub uninterp spec fn sha1_taken(hasher: sha1::Sha1) -> Seq<u8>;

/// The bytes that a SHA-256 hasher has taken in.
pub uninterp spec fn sha256_taken(hasher: sha2::Sha256) -> Seq<u8>;

/// The SHA-1 digest of bytes.
pub uninterp spec fn sha1_digest(bytes: Seq<u8>) -> Seq<u8>;

/// The SHA-256 digest of bytes.
pub uninterp spec fn sha256_digest(bytes: Seq<u8>) -> Seq<u8>;

/// Makes a hasher with `sha1::Sha1::new`, which has taken in nothing.
#[verifier::external_body]
fn sha1_new() -> (r: sha1::Sha1)
    ensures
        sha1_taken(r) == Seq::<u8>::empty(),
{
    sha1::Sha1::new()
}

/// Makes a hasher with `sha2::Sha256::new`, which has taken in nothing.
#[verifier::external_body]
fn sha256_new() -> (r: sha2::Sha256)
    ensures
        sha256_taken(r) == Seq::<u8>::empty(),
{
    sha2::Sha256::new()
}

/// Takes in more bytes with `Digest::update` of `sha1::Sha1`.
#[verifier::external_body]
fn sha1_update(hasher: &mut sha1::Sha1, data: &[u8])
    requires
        sha1_taken(*old(hasher)).len() + data@.len() <= MAX_PACK_LEN,
    ensures
        sha1_taken(*final(hasher)) == sha1_taken(*old(hasher)) + data@,
{
    hasher.update(data)
}

/// Takes in more bytes with `Digest::update` of `sha2::Sha256`.
#[verifier::external_body]
fn sha256_update(hasher: &mut sha2::Sha256, data: &[u8])
    requires
        sha256_taken(*old(hasher)).len() + data@.len() <= MAX_PACK_LEN,
    ensures
        sha256_taken(*final(hasher)) == sha256_taken(*old(hasher)) + data@,
{
    hasher.update(data)
}

/// Computes the digest with `Digest::finalize` on a clone of the `sha1::Sha1`. It
/// has 20 bytes and is a function of the bytes that were taken in. The number of
/// bits has to fit into 64 bits.
#[verifier::external_body]
fn sha1_finalize(hasher: &sha1::Sha1) -> (r: Vec<u8>)
    requires
        sha1_taken(*hasher).len() <= MAX_PACK_LEN,
    ensures
        r@ == sha1_digest(sha1_taken(*hasher)),
        r@.len() == 20,
{
    hasher.clone().finalize().to_vec()
}

/// Computes the digest with `Digest::finalize` on a clone of the `sha2::Sha256`. It
/// has 32 bytes and is a function of the bytes that were taken in. The number of
/// bits has to fit into 64 bits.
#[verifier::external_body]
fn sha256_finalize(hasher: &sha2::Sha256) -> (r: Vec<u8>)
    requires
        sha256_taken(*hasher).len() <= MAX_PACK_LEN,
    ensures
        r@ == sha256_digest(sha256_taken(*hasher)),
        r@.len() == 32,
{
    hasher.clone().finalize().to_vec()
}

/// The digest of bytes by one of the hash functions.
pub open spec fn digest(kind: HashKind, bytes: Seq<u8>) -> Seq<u8> {
    match kind {
        HashKind::Sha1 => sha1_digest(bytes),
        HashKind::Sha256 => sha256_digest(bytes),
    }
}

/// A hash function at work.
pub enum HashAlgorithm {
    Sha1(sha1::Sha1),
    Sha256(sha2::Sha256),
}

impl View for HashAlgorithm {
    type V = Seq<u8>;

    /// The bytes that were taken in.
    open spec fn view(&self) -> Seq<u8> {
        match *self {
            HashAlgorithm::Sha1(hasher) => sha1_taken(hasher),
            HashAlgorithm::Sha256(hasher) => sha256_taken(hasher),
        }
    }
}

impl HashAlgorithm {
    /// The hash function.
    pub open spec fn kind(self) -> HashKind {
        match self {
            HashAlgorithm::Sha1(_) => HashKind::Sha1,
            HashAlgorithm::Sha256(_) => HashKind::Sha256,
        }
    }

    /// A hash function that has taken in nothing.
    pub fn new(kind: HashKind) -> (r: Self)
        ensures
            r.kind() == kind,
            r@ == Seq::<u8>::empty(),
    {
        match kind {
            HashKind::Sha1 => HashAlgorithm::Sha1(sha1_new()),
            HashKind::Sha256 => HashAlgorithm::Sha256(sha256_new()),
        }
    }

    /// Takes in more bytes.
    pub fn update(&mut self, data: &[u8])
        requires
            old(self)@.len() + data@.len() <= MAX_PACK_LEN,
        ensures
            final(self)@ == old(self)@ + data@,
            final(self).kind() == old(self).kind(),
    {
        match self {
            HashAlgorithm::Sha1(hasher) => sha1_update(hasher, data),
            HashAlgorithm::Sha256(hasher) => sha256_update(hasher, data),
        }
    }

    /// The digest of the bytes that were taken in.
    pub fn finalize(&self) -> (r: Vec<u8>)
        requires
            self@.len() <= MAX_PACK_LEN,
        ensures
            r@ == digest(self.kind(), self@),
            r@.len() == self.kind().spec_size(),
    {
        match self {
            HashAlgorithm::Sha1(hasher) => sha1_finalize(hasher),
            HashAlgorithm::Sha256(hasher) => sha256_finalize(hasher),
        }
    }
}

} // verus!
