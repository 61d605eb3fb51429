//! AES-128 in ECB mode: the key's 16 big-endian bytes are the cipher key,
//! the input is padded to whole 16-byte blocks, each block is enciphered
//! independently, and the output carries the key's fingerprint as a 32-byte
//! prefix so that a wrong key is detected on decode.

use vstd::prelude::*;
use aes::cipher::{BlockDecrypt, BlockEncrypt, KeyInit};
use crate::codec::{CodecError, CodecFunctions, view_key};
use crate::hash_handling::{hash_key, verify_hash, key_bytes, spec_fingerprint, spec_i128_be};

verus! {

/// The AES-128 encryption of one 16-byte block under a 16-byte key. The
/// result depends on the key and block alone; nothing more is assumed of it.
pub uninterp spec fn aes_enc_block(key: Seq<u8>, block: Seq<u8>) -> Seq<u8>;

/// The AES-128 decryption of one 16-byte block under a 16-byte key.
pub uninterp spec fn aes_dec_block(key: Seq<u8>, block: Seq<u8>) -> Seq<u8>;

/// Relies on aes's `Aes128`, through `KeyInit::new_from_slice` (which
/// accepts every 16-byte key) and `BlockEncrypt::encrypt_block`: the output
/// block depends on the key and input block alone and is 16 bytes long.
#[verifier::external_body]
fn aes_encrypt_block(key: &Vec<u8>, block: &Vec<u8>) -> (r: Vec<u8>)
    requires
        key@.len() == 16,
        block@.len() == 16,
    ensures
        r@ == aes_enc_block(key@, block@),
        r@.len() == 16,
{
    let cipher = aes::Aes128::new_from_slice(key.as_slice()).unwrap();
    let mut b = aes::cipher::generic_array::GenericArray::clone_from_slice(block.as_slice());
    cipher.encrypt_block(&mut b);
    b.to_vec()
}

/// Relies on aes's `Aes128`, through `KeyInit::new_from_slice` and
/// `BlockDecrypt::decrypt_block`; a block that is the encryption of some
/// 16-byte plaintext decrypts back to that plaintext, which is
/// `BlockDecrypt`'s documented relation to `BlockEncrypt`.
#[verifier::external_body]
fn aes_decrypt_block(key: &Vec<u8>, block: &Vec<u8>) -> (r: Vec<u8>)
    requires
        key@.len() == 16,
        block@.len() == 16,
    ensures
        r@ == aes_dec_block(key@, block@),
        r@.len() == 16,
        forall|p: Seq<u8>| p.len() == 16 && block@ == aes_enc_block(key@, p) ==> r@ == p,
{
    let cipher = aes::Aes128::new_from_slice(key.as_slice()).unwrap();
    let mut b = aes::cipher::generic_array::GenericArray::clone_from_slice(block.as_slice());
    cipher.decrypt_block(&mut b);
    b.to_vec()
}

/// The input extended to a whole number of 16-byte blocks: `p` bytes of value
/// `p` are appended, where `p` is between 1 and 16.
pub open spec fn spec_aes_pad(s: Seq<u8>) -> Seq<u8> {
    let p = 16 - (s.len() % 16);
    s + Seq::new(p as nat, |i: int| p as u8)
}

/// Padding adds at least one and at most sixteen bytes and always reaches a
/// whole number of blocks; an input already a multiple of 16 bytes long gains
/// exactly one full block of padding.
pub proof fn lemma_aes_pad_len(s: Seq<u8>)
    ensures
        s.len() < spec_aes_pad(s).len() <= s.len() + 16,
        spec_aes_pad(s).len() % 16 == 0,
        s.len() % 16 == 0 ==> spec_aes_pad(s).len() == s.len() + 16,
{
}

/// Block-by-block decryption of a buffer; a trailing fragment shorter than
/// one block carries nothing (checked ciphertexts are whole blocks).
pub open spec fn spec_aes_dec_blocks(key: Seq<u8>, cipher: Seq<u8>) -> Seq<u8>
    decreases cipher.len(),
{
    if cipher.len() < 16 {
        Seq::empty()
    } else {
        aes_dec_block(key, cipher.take(16)) + spec_aes_dec_blocks(key, cipher.skip(16))
    }
}

/// The lenient padding strip: the last byte names how many bytes to drop,
/// where it lies between 1 and 16 and within the buffer; otherwise the
/// buffer stays as it is.
pub open spec fn spec_aes_unpad(s: Seq<u8>) -> Seq<u8> {
    if s.len() > 0 && 1 <= s.last() <= 16 && s.last() <= s.len() {
        s.take(s.len() - s.last())
    } else {
        s
    }
}

/// `cipher` is `plain` enciphered block by block under `key`.
pub open spec fn spec_blocks_encrypted(key: Seq<u8>, plain: Seq<u8>, cipher: Seq<u8>) -> bool {
    &&& cipher.len() == plain.len()
    &&& plain.len() % 16 == 0
    &&& forall|i: int|
        0 <= i < plain.len() / 16 ==> #[trigger] cipher.subrange(16 * i, 16 * i + 16)
            == aes_enc_block(key, plain.subrange(16 * i, 16 * i + 16))
}

/// A stateless AES-128 transformer.
pub struct AESEncoder {}

impl CodecFunctions for AESEncoder {
    open spec fn spec_keyed() -> bool {
        true
    }

    open spec fn spec_valid_encoding(enc: Seq<u8>, orig: Seq<u8>, key: Option<i128>) -> bool {
        match key {
            Some(k) => {
                &&& enc.len() == 32 + spec_aes_pad(orig).len()
                &&& enc.take(32) == spec_fingerprint(k)
                &&& spec_blocks_encrypted(spec_i128_be(k), spec_aes_pad(orig), enc.skip(32))
            },
            None => false,
        }
    }

    open spec fn spec_encode_err(data: Seq<u8>, key: Option<i128>) -> Option<CodecError> {
        if key is None {
            Some(CodecError::MissingKey)
        } else {
            None
        }
    }

    open spec fn spec_decode_err(enc: Seq<u8>, key: Option<i128>) -> Option<CodecError> {
        if enc.len() < 33 {
            Some(CodecError::InvalidData)
        } else {
            match key {
                None => Some(CodecError::MissingKey),
                Some(k) => if enc.take(32) != spec_fingerprint(k) {
                    Some(CodecError::PermissionDenied)
                } else if (enc.len() - 32) % 16 != 0 {
                    Some(CodecError::InvalidData)
                } else {
                    None
                },
            }
        }
    }

    fn encode(data: &Vec<u8>, key: Option<&i128>) -> (r: Result<Vec<u8>, CodecError>) {
        let key_ref: &i128 = match key {
            Some(k) => k,
            None => {
                return Err(CodecError::MissingKey);
            },
        };
        let aes_key = key_bytes(key_ref);

        // Pad the input to a whole number of blocks.
        let padding_needed: usize = 16 - (data.len() % 16);
        let mut padded: Vec<u8> = Vec::new();
        let n = data.len();
        let mut i: usize = 0;
        while i < n
            invariant
                n == data@.len(),
                i <= n,
                padded@ == data@.take(i as int),
            decreases n - i,
        {
            padded.push(data[i]);
            proof {
                assert(padded@ =~= data@.take(i + 1));
            }
            i = i + 1;
        }
        let mut j: usize = 0;
        while j < padding_needed
            invariant
                padding_needed == 16 - (data@.len() % 16),
                j <= padding_needed,
                padded@ == data@ + Seq::new(j as nat, |t: int| padding_needed as u8),
            decreases padding_needed - j,
        {
            padded.push(padding_needed as u8);
            proof {
                assert(padded@ =~= data@ + Seq::new((j + 1) as nat, |t: int| padding_needed as u8));
            }
            j = j + 1;
        }
        proof {
            assert(padded@ =~= spec_aes_pad(data@));
            assert(padded@.len() % 16 == 0);
        }

        // Encipher block by block.
        let mut result: Vec<u8> = hash_key(key_ref);
        let ghost fp = result@;
        let m = padded.len();
        let mut off: usize = 0;
        proof {
            assert(result@.take(32) =~= fp);
        }
        while off < m
            invariant
                m == padded@.len(),
                m % 16 == 0,
                off <= m,
                off % 16 == 0,
                aes_key@ == spec_i128_be(*key_ref),
                aes_key@.len() == 16,
                result@.len() == 32 + off,
                result@.take(32) == fp,
                spec_blocks_encrypted(aes_key@, padded@.take(off as int), result@.skip(32)),
            decreases m - off,
        {
            let block = vstd::slice::slice_to_vec(
                vstd::slice::slice_subrange(padded.as_slice(), off, off + 16),
            );
            let enc = aes_encrypt_block(&aes_key, &block);
            let ghost before = result@;
            let mut t: usize = 0;
            while t < 16
                invariant
                    t <= 16,
                    enc@.len() == 16,
                    result@ == before + enc@.take(t as int),
                decreases 16 - t,
            {
                result.push(enc[t]);
                proof {
                    assert(result@ =~= before + enc@.take(t + 1));
                }
                t = t + 1;
            }
            proof {
                assert(enc@.take(16) =~= enc@);
                assert(result@.take(32) =~= fp);
                let done = padded@.take(off + 16);
                let ctext = result@.skip(32);
                assert(block@ == padded@.subrange(off as int, off + 16));
                assert forall|b: int| 0 <= b < done.len() / 16 implies #[trigger] ctext.subrange(
                    16 * b,
                    16 * b + 16,
                ) == aes_enc_block(aes_key@, done.subrange(16 * b, 16 * b + 16)) by {
                    if b < off / 16 {
                        assert(ctext.subrange(16 * b, 16 * b + 16) =~= before.skip(32).subrange(
                            16 * b,
                            16 * b + 16,
                        ));
                        assert(done.subrange(16 * b, 16 * b + 16) =~= padded@.take(
                            off as int,
                        ).subrange(16 * b, 16 * b + 16));
                    } else {
                        assert(b == off / 16);
                        assert(16 * b == off);
                        assert(ctext.subrange(16 * b, 16 * b + 16) =~= enc@);
                        assert(done.subrange(16 * b, 16 * b + 16) =~= block@);
                    }
                }
                assert(spec_blocks_encrypted(aes_key@, padded@.take(off + 16), result@.skip(32)));
            }
            off = off + 16;
        }
        proof {
            assert(padded@.take(m as int) =~= padded@);
        }
        Ok(result)
    }

    fn decode(encoded_data: &Vec<u8>, key: Option<&i128>) -> (r: Result<Vec<u8>, CodecError>)
        ensures
            r is Ok ==> view_key(key) is Some && r->Ok_0@ == spec_aes_unpad(
                spec_aes_dec_blocks(spec_i128_be(view_key(key)->0), encoded_data@.skip(32)),
            ),
    {
        if encoded_data.len() < 33 {
            proof {
                if exists|orig: Seq<u8>|
                    Self::spec_valid_encoding(encoded_data@, orig, view_key(key)) {
                    let orig = choose|orig: Seq<u8>|
                        Self::spec_valid_encoding(encoded_data@, orig, view_key(key));
                    lemma_aes_pad_len(orig);
                }
            }
            return Err(CodecError::InvalidData);
        }
        let possible_key_ref: &i128 = match key {
            Some(k) => k,
            None => {
                return Err(CodecError::MissingKey);
            },
        };
        let hashed_key = vstd::slice::slice_subrange(encoded_data.as_slice(), 0, 32);
        if !verify_hash(possible_key_ref, hashed_key) {
            proof {
                assert(encoded_data@.subrange(0, 32) == encoded_data@.take(32));
            }
            return Err(CodecError::PermissionDenied);
        }
        if (encoded_data.len() - 32) % 16 != 0 {
            proof {
                if exists|orig: Seq<u8>|
                    Self::spec_valid_encoding(encoded_data@, orig, view_key(key)) {
                    let orig = choose|orig: Seq<u8>|
                        Self::spec_valid_encoding(encoded_data@, orig, view_key(key));
                    lemma_aes_pad_len(orig);
                }
            }
            return Err(CodecError::InvalidData);
        }
        let aes_key = key_bytes(possible_key_ref);

        // Decipher block by block.
        let n = encoded_data.len();
        let mut decrypted: Vec<u8> = Vec::new();
        let mut off: usize = 32;
        proof {
            assert forall|orig: Seq<u8>|
                #[trigger] Self::spec_valid_encoding(encoded_data@, orig, view_key(key))
                    implies decrypted@ == spec_aes_pad(orig).take(0) by {
                assert(decrypted@ =~= spec_aes_pad(orig).take(0));
            }
            assert(decrypted@ + spec_aes_dec_blocks(aes_key@, encoded_data@.skip(32))
                =~= spec_aes_dec_blocks(aes_key@, encoded_data@.skip(32)));
        }
        while off < n
            invariant
                n == encoded_data@.len(),
                33 <= n,
                (n - 32) % 16 == 0,
                32 <= off <= n,
                (off - 32) % 16 == 0,
                aes_key@ == spec_i128_be(*possible_key_ref),
                aes_key@.len() == 16,
                view_key(key) == Some(*possible_key_ref),
                decrypted@.len() == off - 32,
                spec_aes_dec_blocks(aes_key@, encoded_data@.skip(32)) == decrypted@
                    + spec_aes_dec_blocks(aes_key@, encoded_data@.skip(off as int)),
                forall|orig: Seq<u8>|
                    #[trigger] Self::spec_valid_encoding(encoded_data@, orig, view_key(key))
                        ==> decrypted@ == spec_aes_pad(orig).take(off - 32),
            decreases n - off,
        {
            let block = vstd::slice::slice_to_vec(
                vstd::slice::slice_subrange(encoded_data.as_slice(), off, off + 16),
            );
            let dec = aes_decrypt_block(&aes_key, &block);
            let ghost before = decrypted@;
            let mut t: usize = 0;
            while t < 16
                invariant
                    t <= 16,
                    dec@.len() == 16,
                    decrypted@ == before + dec@.take(t as int),
                decreases 16 - t,
            {
                decrypted.push(dec[t]);
                proof {
                    assert(decrypted@ =~= before + dec@.take(t + 1));
                }
                t = t + 1;
            }
            proof {
                assert(dec@.take(16) =~= dec@);
                let rem = encoded_data@.skip(off as int);
                assert(rem.len() >= 16);
                assert(rem.take(16) =~= block@);
                assert(rem.skip(16) =~= encoded_data@.skip(off + 16));
                assert(spec_aes_dec_blocks(aes_key@, rem) == dec@ + spec_aes_dec_blocks(
                    aes_key@,
                    encoded_data@.skip(off + 16),
                ));
                assert(spec_aes_dec_blocks(aes_key@, encoded_data@.skip(32)) =~= decrypted@
                    + spec_aes_dec_blocks(aes_key@, encoded_data@.skip(off + 16)));
                assert forall|orig: Seq<u8>|
                    #[trigger] Self::spec_valid_encoding(encoded_data@, orig, view_key(key))
                        implies decrypted@ == spec_aes_pad(orig).take(off + 16 - 32) by {
                    let padded = spec_aes_pad(orig);
                    let b = (off - 32) / 16;
                    assert(padded.len() == n - 32);
                    assert(encoded_data@.skip(32).subrange(16 * b, 16 * b + 16) == aes_enc_block(
                        aes_key@,
                        padded.subrange(16 * b, 16 * b + 16),
                    ));
                    assert(block@ =~= encoded_data@.skip(32).subrange(16 * b, 16 * b + 16));
                    assert(padded.subrange(16 * b, 16 * b + 16).len() == 16);
                    assert(dec@ == padded.subrange(16 * b, 16 * b + 16));
                    assert(before == padded.take(off - 32));
                    assert(decrypted@ =~= padded.take(off + 16 - 32));
                }
            }
            off = off + 16;
        }

        // Strip the padding recorded in the last byte.
        proof {
            assert(encoded_data@.skip(n as int).len() == 0);
            assert(spec_aes_dec_blocks(aes_key@, encoded_data@.skip(n as int)) =~= Seq::<
                u8,
            >::empty());
            assert(decrypted@ =~= spec_aes_dec_blocks(aes_key@, encoded_data@.skip(32)));
        }
        let ghost full = decrypted@;
        let dlen = decrypted.len();
        if dlen > 0 {
            let padding_size = decrypted[dlen - 1];
            if padding_size as usize <= dlen && padding_size >= 1 && padding_size <= 16 {
                decrypted.truncate(dlen - padding_size as usize);
            }
        }
        proof {
            assert(dlen == full.len());
            if dlen > 0 {
                assert(full.last() == full[dlen - 1]);
            }
            assert(decrypted@ == spec_aes_unpad(full));
            assert forall|orig: Seq<u8>|
                #[trigger] Self::spec_valid_encoding(encoded_data@, orig, view_key(key))
                    implies decrypted@ == orig by {
                let padded = spec_aes_pad(orig);
                let p = 16 - (orig.len() % 16);
                assert(full =~= padded);
                assert(padded[padded.len() - 1] == p as u8);
                assert(full[dlen - 1] == p as u8);
                assert(decrypted@ == full.subrange(0, dlen - p));
                assert(decrypted@ =~= orig);
            }
        }
        Ok(decrypted)
    }
}

} // verus!
