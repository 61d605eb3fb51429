//! The keyed additive cipher: each byte is shifted (wrapping) by the low byte
//! of the key, and the output carries the key's fingerprint as a 32-byte
//! prefix so that a wrong key is detected on decode.

use vstd::prelude::*;
use crate::codec::{CodecError, CodecFunctions, view_key};
use crate::hash_handling::{hash_key, verify_hash, key_bytes, spec_fingerprint, spec_i128_be};

verus! {

/// The shift applied to every byte: the low byte of the key.
pub open spec fn spec_caesar_shift(k: i128) -> u8 {
    spec_i128_be(k)[15]
}

/// A byte shifted forward, wrapping modulo 256.
pub open spec fn spec_wrap_add(b: u8, s: u8) -> u8 {
    ((b as int + s as int) % 256) as u8
}

/// A byte shifted back, wrapping modulo 256.
pub open spec fn spec_wrap_sub(b: u8, s: u8) -> u8 {
    ((b as int + 256 - s as int) % 256) as u8
}

/// Shifting back undoes shifting forward.
pub proof fn lemma_wrap_shift_round_trip(b: u8, s: u8)
    ensures
        spec_wrap_sub(spec_wrap_add(b, s), s) == b,
{
}

/// The payload of a Caesar encoding: every byte of `orig` shifted forward.
pub open spec fn spec_caesar_transform(orig: Seq<u8>, s: u8) -> Seq<u8> {
    Seq::new(orig.len(), |i: int| spec_wrap_add(orig[i], s))
}

/// What decoding recovers from any buffer that passes the checks: every byte
/// after the fingerprint shifted back.
pub open spec fn spec_caesar_decoded(enc: Seq<u8>, k: i128) -> Seq<u8>
    recommends
        enc.len() >= 32,
{
    Seq::new((enc.len() - 32) as nat, |j: int| spec_wrap_sub(enc[j + 32], spec_caesar_shift(k)))
}

/// A stateless additive-cipher transformer.
pub struct CaesarEncoder {}

impl CodecFunctions for CaesarEncoder {
    open spec fn spec_keyed() -> bool {
        true
    }

    open spec fn spec_valid_encoding(enc: Seq<u8>, orig: Seq<u8>, key: Option<i128>) -> bool {
        match key {
            Some(k) => {
                &&& enc.len() == 32 + orig.len()
                &&& enc.take(32) == spec_fingerprint(k)
                &&& enc.skip(32) == spec_caesar_transform(orig, spec_caesar_shift(k))
            },
            None => false,
        }
    }

    open spec fn spec_encode_err(data: Seq<u8>, key: Option<i128>) -> Option<CodecError> {
        if key is None {
            Some(CodecError::MissingKey)
        } else {
            None
        }
    }

    open spec fn spec_decode_err(enc: Seq<u8>, key: Option<i128>) -> Option<CodecError> {
        if enc.len() < 32 {
            Some(CodecError::InvalidData)
        } else {
            match key {
                None => Some(CodecError::MissingKey),
                Some(k) => if enc.take(32) != spec_fingerprint(k) {
                    Some(CodecError::PermissionDenied)
                } else {
                    None
                },
            }
        }
    }

    fn encode(data: &Vec<u8>, key: Option<&i128>) -> (r: Result<Vec<u8>, CodecError>) {
        let key_ref: &i128 = match key {
            Some(k) => k,
            None => {
                return Err(CodecError::MissingKey);
            },
        };
        let mut result: Vec<u8> = hash_key(key_ref);
        let kb = key_bytes(key_ref);
        let shift: u8 = kb[15];
        let n = data.len();
        let ghost fp = result@;
        let mut i: usize = 0;
        while i < n
            invariant
                n == data@.len(),
                i <= n,
                shift == spec_caesar_shift(*key_ref),
                result@ == fp + spec_caesar_transform(data@.take(i as int), shift),
            decreases n - i,
        {
            result.push(data[i].wrapping_add(shift));
            proof {
                assert(result@ =~= fp + spec_caesar_transform(data@.take(i + 1), shift));
            }
            i = i + 1;
        }
        proof {
            assert(data@.take(n as int) =~= data@);
            assert(result@.take(32) =~= fp);
            assert(result@.skip(32) =~= spec_caesar_transform(data@, shift));
        }
        Ok(result)
    }

    fn decode(encoded_data: &Vec<u8>, key: Option<&i128>) -> (r: Result<Vec<u8>, CodecError>)
        ensures
            r is Ok ==> view_key(key) is Some && r->Ok_0@ == spec_caesar_decoded(
                encoded_data@,
                view_key(key)->0,
            ),
    {
        if encoded_data.len() < 32 {
            return Err(CodecError::InvalidData);
        }
        let possible_key_ref: &i128 = match key {
            Some(k) => k,
            None => {
                return Err(CodecError::MissingKey);
            },
        };
        let hashed_key = vstd::slice::slice_subrange(encoded_data.as_slice(), 0, 32);
        if !verify_hash(possible_key_ref, hashed_key) {
            proof {
                assert(encoded_data@.subrange(0, 32) == encoded_data@.take(32));
            }
            return Err(CodecError::PermissionDenied);
        }
        let kb = key_bytes(possible_key_ref);
        let shift: u8 = kb[15];
        let n = encoded_data.len();
        let mut result: Vec<u8> = Vec::new();
        let mut i: usize = 32;
        while i < n
            invariant
                n == encoded_data@.len(),
                32 <= i <= n,
                shift == spec_caesar_shift(*possible_key_ref),
                result@ == Seq::new((i - 32) as nat, |j: int| spec_wrap_sub(
                    encoded_data@[j + 32],
                    shift,
                )),
            decreases n - i,
        {
            result.push(encoded_data[i].wrapping_sub(shift));
            proof {
                assert(result@ =~= Seq::new((i + 1 - 32) as nat, |j: int| spec_wrap_sub(
                    encoded_data@[j + 32],
                    shift,
                )));
            }
            i = i + 1;
        }
        proof {
            assert forall|orig: Seq<u8>|
                Self::spec_valid_encoding(encoded_data@, orig, view_key(key)) implies result@
                == orig by {
                let k = *possible_key_ref;
                let s = spec_caesar_shift(k);
                assert(forall|j: int| 0 <= j < orig.len() ==> encoded_data@[j + 32]
                    == #[trigger] spec_caesar_transform(orig, s)[j]) by {
                    assert(forall|j: int| 0 <= j < orig.len() ==> encoded_data@[j + 32]
                        == #[trigger] encoded_data@.skip(32)[j]);
                }
                assert forall|j: int| 0 <= j < orig.len() implies result@[j] == orig[j] by {
                    assert(encoded_data@[j + 32] == spec_caesar_transform(orig, s)[j]);
                    assert(spec_caesar_transform(orig, s)[j] == spec_wrap_add(orig[j], s));
                    assert(result@[j] == spec_wrap_sub(encoded_data@[j + 32], s));
                    lemma_wrap_shift_round_trip(orig[j], s);
                }
                assert(result@ =~= orig);
            }
        }
        Ok(result)
    }
}

} // verus!
