//! The key-verification fingerprint shared by the keyed codecs: the SHA-256
//! digest of the key's 16 big-endian bytes, stored verbatim at the front of a
//! keyed stage's output and compared on decode.

use vstd::prelude::*;
use sha2::Digest;

verus! {

/// The SHA-256 digest of a byte sequence. The digest is a function of its
/// input alone; nothing more is assumed of it.
pub uninterp spec fn sha256_of(data: Seq<u8>) -> Seq<u8>;

/// The big-endian two's-complement bytes of a 128-bit key.
pub open spec fn spec_i128_be(k: i128) -> Seq<u8> {
    Seq::new(16, |i: int| ((k >> ((8 * (15 - i)) as i128)) & 0xff) as u8)
}

/// Relies on sha2's `Sha256::digest`: the digest depends on the input bytes
/// alone and is exactly 32 bytes long.
#[verifier::external_body]
fn sha256_digest(data: &Vec<u8>) -> (r: Vec<u8>)
    ensures
        r@ == sha256_of(data@),
        r@.len() == 32,
{
    sha2::Sha256::digest(data.as_slice()).to_vec()
}

/// The fingerprint of a key: SHA-256 over its 16 big-endian bytes.
pub open spec fn spec_fingerprint(k: i128) -> Seq<u8> {
    sha256_of(spec_i128_be(k))
}

/// The 16 big-endian bytes of a key, for use as cipher key material: the
/// integer's two's-complement representation, most significant byte first.
pub fn key_bytes(key: &i128) -> (r: Vec<u8>)
    ensures
        r@ == spec_i128_be(*key),
        r@.len() == 16,
{
    let k: i128 = *key;
    let mut out: Vec<u8> = Vec::new();
    let mut i: usize = 0;
    while i < 16
        invariant
            i <= 16,
            out@.len() == i,
            forall|j: int| 0 <= j < i ==> out@[j] == spec_i128_be(k)[j],
        decreases 16 - i,
    {
        let sh: i128 = (8 * (15 - i)) as i128;
        out.push(#[verifier::truncate] (((k >> sh) & 0xff) as u8));
        proof {
            assert(out@[i as int] == spec_i128_be(k)[i as int]);
        }
        i = i + 1;
    }
    proof {
        assert(out@ =~= spec_i128_be(k));
    }
    out
}

/// Derives the 32-byte fingerprint embedded in a keyed stage's output.
pub fn hash_key(key: &i128) -> (r: Vec<u8>)
    ensures
        r@ == spec_fingerprint(*key),
        r@.len() == 32,
{
    let kb = key_bytes(key);
    sha256_digest(&kb)
}

/// Checks a candidate key against a stored fingerprint.
pub fn verify_hash(possible_key: &i128, hashed_key: &[u8]) -> (r: bool)
    ensures
        r <==> spec_fingerprint(*possible_key) == hashed_key@,
{
    let computed = hash_key(possible_key);
    if computed.len() != hashed_key.len() {
        return false;
    }
    let n = computed.len();
    let mut i: usize = 0;
    while i < n
        invariant
            n == computed.len(),
            n == hashed_key@.len(),
            computed@ == spec_fingerprint(*possible_key),
            i <= n,
            forall|j: int| 0 <= j < i ==> computed@[j] == hashed_key@[j],
        decreases n - i,
    {
        if computed[i] != hashed_key[i] {
            return false;
        }
        i += 1;
    }
    proof {
        assert(computed@ =~= hashed_key@);
    }
    true
}

} // verus!
