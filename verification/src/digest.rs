//! SHA3-256 and the keyed hash built on it.
//!
//! SHA3 is a sponge and has no length-extension weakness, so a keyed hash is
//! simply the digest of the key followed by the message.

use vstd::prelude::*;

use crate::error::{from_backend, Error};

verus! {

/// The number of bytes in a digest.
pub const DIGEST_LEN: usize = 32;

/// An OpenSSL streaming hasher.
#[verifier::external_type_specification]
#[verifier::external_body]
pub struct ExHasher(openssl::hash::Hasher);

/// The SHA3-256 digest of `data`.
pub uninterp spec fn sha3_256(data: Seq<u8>) -> Seq<u8>;

/// The bytes that a hasher has taken in since it was created.
pub uninterp spec fn absorbed(h: openssl::hash::Hasher) -> Seq<u8>;

/// The keyed hash of `message` under `key`: the digest of the key followed by the message.
pub open spec fn keyed_hash(key: Seq<u8>, message: Seq<u8>) -> Seq<u8> {
    sha3_256(key + message)
}

/// SHA3-256 tells `a` and `b` apart: if they differ, so do their digests.
pub open spec fn no_collision(a: Seq<u8>, b: Seq<u8>) -> bool {
    a != b ==> sha3_256(a) != sha3_256(b)
}

/// A running SHA3-256 computation. The hasher inside is made by
/// [`start`] alone, so it is never one of another algorithm.
struct Sha3 {
    hasher: openssl::hash::Hasher,
}

impl Sha3 {
    /// The bytes taken in so far.
    spec fn taken(&self) -> Seq<u8> {
        absorbed(self.hasher)
    }
}

/// `openssl::hash::Hasher::new` with `MessageDigest::sha3_256()`: a hasher
/// that comes back has taken in nothing yet.
#[verifier::external_body]
fn start() -> (r: Result<Sha3, openssl::error::ErrorStack>)
    ensures
        r matches Ok(h) ==> absorbed(h.hasher) == Seq::<u8>::empty(),
{
    Ok(Sha3 { hasher: openssl::hash::Hasher::new(openssl::hash::MessageDigest::sha3_256())? })
}

/// `openssl::hash::Hasher::update`: on success the hasher has taken in `data`
/// after everything it had taken in before.
#[verifier::external_body]
fn update(h: &mut Sha3, data: &[u8]) -> (r: Result<(), openssl::error::ErrorStack>)
    ensures
        r is Ok ==> absorbed(final(h).hasher) == absorbed(old(h).hasher) + data@,
{
    h.hasher.update(data)
}

/// `openssl::hash::Hasher::finish` on a SHA3-256 hasher: on success the
/// result is the SHA3-256 digest, 32 bytes long, of everything the hasher had
/// taken in.
#[verifier::external_body]
fn finish(h: &mut Sha3) -> (r: Result<Vec<u8>, openssl::error::ErrorStack>)
    ensures
        r matches Ok(d) ==> d@ == sha3_256(absorbed(old(h).hasher)) && d@.len() == DIGEST_LEN,
{
    Ok(h.hasher.finish()?.to_vec())
}

/// The SHA3-256 digest of `data`.
pub fn sha3(data: &[u8]) -> (r: Result<Vec<u8>, Error>)
    ensures
        r matches Ok(digest) ==> digest@ == sha3_256(data@) && digest@.len() == DIGEST_LEN,
        r matches Err(e) ==> e == Error::Backend,
{
    let mut h = match from_backend(start()) {
        Ok(h) => h,
        Err(e) => { return Err(e); },
    };
    match from_backend(update(&mut h, data)) {
        Ok(_) => {},
        Err(e) => { return Err(e); },
    }
    assert(h.taken() =~= data@);
    from_backend(finish(&mut h))
}

/// The keyed hash of `data` under `key`, computed without copying either.
pub fn hmac(key: &[u8], data: &[u8]) -> (r: Result<Vec<u8>, Error>)
    ensures
        r matches Ok(digest) ==> digest@ == keyed_hash(key@, data@) && digest@.len() == DIGEST_LEN,
        r matches Err(e) ==> e == Error::Backend,
{
    let mut h = match from_backend(start()) {
        Ok(h) => h,
        Err(e) => { return Err(e); },
    };
    match from_backend(update(&mut h, key)) {
        Ok(_) => {},
        Err(e) => { return Err(e); },
    }
    match from_backend(update(&mut h, data)) {
        Ok(_) => {},
        Err(e) => { return Err(e); },
    }
    assert(h.taken() =~= key@ + data@);
    from_backend(finish(&mut h))
}

} // verus!
