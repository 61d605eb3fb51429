use rustyzipper::codec::{CodecError, CodecFunctions, CodecList};
use rustyzipper::huffman::HuffmanEncoder;
use rustyzipper::rle::RLEEncoder;
use rustyzipper::caesar::CaesarEncoder;
use rustyzipper::aes_cipher::AESEncoder;
use rustyzipper::pipeline::{encode_buffer, decode_buffer, validate_encoded_file};
use sha2::Digest;
use aes::cipher::{BlockEncrypt, KeyInit};

fn key_from_ascii(s: &str) -> i128 {
    let key_bytes = s.as_bytes();
    let mut arr = [0u8; 16];
    let n = key_bytes.len().min(16);
    arr[16 - n..].copy_from_slice(&key_bytes[..n]);
    i128::from_be_bytes(arr)
}

fn pseudo_random_buffer(len: usize) -> Vec<u8> {
    let mut state: u64 = 0x2545F4914F6CDD1D;
    let mut out = Vec::with_capacity(len);
    for _ in 0..len {
        state = state.wrapping_mul(6364136223846793005).wrapping_add(1442695040888963407);
        out.push((state >> 33) as u8);
    }
    out
}

#[test]
fn huffman_round_trip_text() {
    let input: Vec<u8> = b"mississippi".to_vec();
    let encoded = HuffmanEncoder::encode(&input, None).unwrap();
    let decoded = HuffmanEncoder::decode(&encoded, None).unwrap();
    assert_eq!(decoded, input);
}

#[test]
fn huffman_round_trip_empty() {
    let input: Vec<u8> = Vec::new();
    let encoded = HuffmanEncoder::encode(&input, None).unwrap();
    // code_count = 0 (2 bytes), original length = 0 (4 bytes), empty payload
    assert_eq!(encoded, vec![0u8, 0, 0, 0, 0, 0]);
    let decoded = HuffmanEncoder::decode(&encoded, None).unwrap();
    assert_eq!(decoded, input);
}

#[test]
fn huffman_round_trip_single_distinct_byte() {
    let input: Vec<u8> = vec![0x61; 4];
    let encoded = HuffmanEncoder::encode(&input, None).unwrap();
    let decoded = HuffmanEncoder::decode(&encoded, None).unwrap();
    assert_eq!(decoded, input);
}

#[test]
fn huffman_round_trip_single_byte_input() {
    let input: Vec<u8> = vec![0x7F];
    let encoded = HuffmanEncoder::encode(&input, None).unwrap();
    let decoded = HuffmanEncoder::decode(&encoded, None).unwrap();
    assert_eq!(decoded, input);
}

#[test]
fn huffman_round_trip_all_byte_values() {
    let mut input: Vec<u8> = Vec::new();
    for b in 0..=255u8 {
        for _ in 0..(1 + (b as usize % 7)) {
            input.push(b);
        }
    }
    let encoded = HuffmanEncoder::encode(&input, None).unwrap();
    let decoded = HuffmanEncoder::decode(&encoded, None).unwrap();
    assert_eq!(decoded, input);
}

#[test]
fn huffman_truncated_header_is_invalid_data() {
    let r = HuffmanEncoder::decode(&vec![0u8], None);
    assert!(matches!(r, Err(CodecError::InvalidData)));
}

#[test]
fn rle_round_trip_text() {
    let input: Vec<u8> = b"aabbbccccd".to_vec();
    let encoded = RLEEncoder::encode(&input, None).unwrap();
    let decoded = RLEEncoder::decode(&encoded, None).unwrap();
    assert_eq!(decoded, input);
}

#[test]
fn rle_known_serialization() {
    // "aaaa" becomes one run: value 0x61, count 4 as 32-bit big-endian
    let input: Vec<u8> = b"aaaa".to_vec();
    let encoded = RLEEncoder::encode(&input, None).unwrap();
    assert_eq!(encoded, vec![0x61, 0x00, 0x00, 0x00, 0x04]);
    let decoded = RLEEncoder::decode(&encoded, None).unwrap();
    assert_eq!(decoded, input);
}

#[test]
fn rle_single_distinct_byte_is_five_bytes() {
    let input: Vec<u8> = vec![0xAB; 1000];
    let encoded = RLEEncoder::encode(&input, None).unwrap();
    assert_eq!(encoded.len(), 5);
    let decoded = RLEEncoder::decode(&encoded, None).unwrap();
    assert_eq!(decoded, input);
}

#[test]
fn rle_empty_round_trip() {
    let input: Vec<u8> = Vec::new();
    let encoded = RLEEncoder::encode(&input, None).unwrap();
    assert_eq!(encoded.len(), 0);
    let decoded = RLEEncoder::decode(&encoded, None).unwrap();
    assert_eq!(decoded, input);
}

#[test]
fn rle_trailing_bytes_are_discarded() {
    // 5-byte record plus 3 trailing bytes: the record expands, the rest is dropped
    let encoded: Vec<u8> = vec![0x42, 0x00, 0x00, 0x00, 0x02, 0x99, 0x98, 0x97];
    let decoded = RLEEncoder::decode(&encoded, None).unwrap();
    assert_eq!(decoded, vec![0x42, 0x42]);
}

#[test]
fn caesar_round_trip_known_shift() {
    // key ASCII "1" parses to low byte 0x31; 'A' + 0x31 = 0x72
    let input: Vec<u8> = b"ABC".to_vec();
    let key = key_from_ascii("1");
    assert_eq!(key, 0x31);
    let encoded = CaesarEncoder::encode(&input, Some(&key)).unwrap();
    assert_eq!(encoded.len(), 32 + 3);
    assert_eq!(&encoded[32..], &[0x72, 0x73, 0x74]);
    let decoded = CaesarEncoder::decode(&encoded, Some(&key)).unwrap();
    assert_eq!(decoded, input);
}

#[test]
fn caesar_fingerprint_is_sha256_of_key_bytes() {
    let key = key_from_ascii("1");
    let encoded = CaesarEncoder::encode(&b"x".to_vec(), Some(&key)).unwrap();
    let expected = sha2::Sha256::digest(&key.to_be_bytes());
    assert_eq!(&encoded[..32], expected.as_slice());
}

#[test]
fn caesar_wrong_key_is_permission_denied() {
    let input: Vec<u8> = b"ABC".to_vec();
    let key = key_from_ascii("1");
    let wrong = key_from_ascii("2");
    let encoded = CaesarEncoder::encode(&input, Some(&key)).unwrap();
    let r = CaesarEncoder::decode(&encoded, Some(&wrong));
    assert!(matches!(r, Err(CodecError::PermissionDenied)));
}

#[test]
fn caesar_missing_key() {
    let r = CaesarEncoder::encode(&b"ABC".to_vec(), None);
    assert!(matches!(r, Err(CodecError::MissingKey)));
    let r2 = CaesarEncoder::decode(&vec![0u8; 40], None);
    assert!(matches!(r2, Err(CodecError::MissingKey)));
}

#[test]
fn caesar_short_buffer_is_invalid_data() {
    let key = key_from_ascii("1");
    let r = CaesarEncoder::decode(&vec![0u8; 31], Some(&key));
    assert!(matches!(r, Err(CodecError::InvalidData)));
}

#[test]
fn aes_round_trip_sixteen_zero_bytes() {
    let input: Vec<u8> = vec![0u8; 16];
    let key = key_from_ascii("key");
    let encoded = AESEncoder::encode(&input, Some(&key)).unwrap();
    // fingerprint (32) plus one data block and one full padding block
    assert_eq!(encoded.len(), 32 + 32);
    let decoded = AESEncoder::decode(&encoded, Some(&key)).unwrap();
    assert_eq!(decoded, input);
}

#[test]
fn aes_ciphertext_matches_direct_ecb() {
    let input: Vec<u8> = vec![0u8; 16];
    let key = key_from_ascii("key");
    let encoded = AESEncoder::encode(&input, Some(&key)).unwrap();
    let cipher = aes::Aes128::new_from_slice(&key.to_be_bytes()).unwrap();
    let mut block0 = aes::cipher::generic_array::GenericArray::clone_from_slice(&[0u8; 16]);
    cipher.encrypt_block(&mut block0);
    let mut block1 = aes::cipher::generic_array::GenericArray::clone_from_slice(&[0x10u8; 16]);
    cipher.encrypt_block(&mut block1);
    assert_eq!(&encoded[32..48], block0.as_slice());
    assert_eq!(&encoded[48..64], block1.as_slice());
}

#[test]
fn aes_round_trip_unaligned_length() {
    let input: Vec<u8> = b"seventeen bytes!!".to_vec();
    assert_eq!(input.len(), 17);
    let key = key_from_ascii("k");
    let encoded = AESEncoder::encode(&input, Some(&key)).unwrap();
    assert_eq!(encoded.len(), 32 + 32);
    let decoded = AESEncoder::decode(&encoded, Some(&key)).unwrap();
    assert_eq!(decoded, input);
}

#[test]
fn aes_round_trip_full_length_and_negative_keys() {
    let input = pseudo_random_buffer(100);
    let full = key_from_ascii("sixteen byte key");
    let negative = i128::from_be_bytes([0xC0, 9, 8, 7, 6, 5, 4, 3, 2, 1, 0, 1, 2, 3, 4, 5]);
    for key in [full, negative] {
        let encoded = AESEncoder::encode(&input, Some(&key)).unwrap();
        let decoded = AESEncoder::decode(&encoded, Some(&key)).unwrap();
        assert_eq!(decoded, input);
    }
}

#[test]
fn aes_wrong_key_is_permission_denied() {
    let input: Vec<u8> = b"block".to_vec();
    let key = key_from_ascii("key");
    let wrong = key_from_ascii("yek");
    let encoded = AESEncoder::encode(&input, Some(&key)).unwrap();
    let r = AESEncoder::decode(&encoded, Some(&wrong));
    assert!(matches!(r, Err(CodecError::PermissionDenied)));
}

#[test]
fn aes_short_buffer_is_invalid_data() {
    let key = key_from_ascii("key");
    let r = AESEncoder::decode(&vec![0u8; 32], Some(&key));
    assert!(matches!(r, Err(CodecError::InvalidData)));
}

#[test]
fn short_buffer_beats_missing_key() {
    // the length check precedes the key check on decode
    let r = AESEncoder::decode(&vec![0u8; 10], None);
    assert!(matches!(r, Err(CodecError::InvalidData)));
    let r2 = CaesarEncoder::decode(&vec![0u8; 10], None);
    assert!(matches!(r2, Err(CodecError::InvalidData)));
}

#[test]
fn aes_wrong_key_beats_ragged_length() {
    // the fingerprint check precedes the block-alignment check
    let key = key_from_ascii("key");
    let wrong = key_from_ascii("nope");
    let mut encoded = AESEncoder::encode(&b"abc".to_vec(), Some(&key)).unwrap();
    encoded.push(0x00);
    let r = AESEncoder::decode(&encoded, Some(&wrong));
    assert!(matches!(r, Err(CodecError::PermissionDenied)));
    let r2 = AESEncoder::decode(&encoded, Some(&key));
    assert!(matches!(r2, Err(CodecError::InvalidData)));
}

#[test]
fn aes_missing_key() {
    let r = AESEncoder::encode(&b"data".to_vec(), None);
    assert!(matches!(r, Err(CodecError::MissingKey)));
}

#[test]
fn aes_empty_round_trip() {
    let input: Vec<u8> = Vec::new();
    let key = key_from_ascii("secret");
    let encoded = AESEncoder::encode(&input, Some(&key)).unwrap();
    assert_eq!(encoded.len(), 32 + 16);
    let decoded = AESEncoder::decode(&encoded, Some(&key)).unwrap();
    assert_eq!(decoded, input);
}

#[test]
fn pipeline_huffman_only_empty_input() {
    let input: Vec<u8> = Vec::new();
    let encoded = encode_buffer(&input, &vec![1u8], &Vec::new()).unwrap();
    assert_eq!(&encoded[..3], &[0x00, 0x01, 0x01]);
    assert_eq!(encoded, vec![0x00, 0x01, 0x01, 0, 0, 0, 0, 0, 0]);
    let decoded = decode_buffer(&encoded, &Vec::new()).unwrap();
    assert_eq!(decoded, input);
}

#[test]
fn pipeline_rle_known_bytes() {
    let input: Vec<u8> = b"aaaa".to_vec();
    let encoded = encode_buffer(&input, &vec![2u8], &Vec::new()).unwrap();
    assert_eq!(encoded, vec![0x00, 0x01, 0x02, 0x61, 0x00, 0x00, 0x00, 0x04]);
    let decoded = decode_buffer(&encoded, &Vec::new()).unwrap();
    assert_eq!(decoded, input);
}

#[test]
fn pipeline_caesar_with_key() {
    let input: Vec<u8> = b"ABC".to_vec();
    let keys = vec![key_from_ascii("1")];
    let encoded = encode_buffer(&input, &vec![3u8], &keys).unwrap();
    assert_eq!(&encoded[..3], &[0x00, 0x01, 0x03]);
    assert_eq!(&encoded[3 + 32..], &[0x72, 0x73, 0x74]);
    let decoded = decode_buffer(&encoded, &keys).unwrap();
    assert_eq!(decoded, input);
    let r = decode_buffer(&encoded, &vec![key_from_ascii("2")]);
    assert!(matches!(r, Err(CodecError::PermissionDenied)));
}

#[test]
fn pipeline_aes_with_key() {
    let input: Vec<u8> = vec![0u8; 16];
    let keys = vec![key_from_ascii("key")];
    let encoded = encode_buffer(&input, &vec![4u8], &keys).unwrap();
    assert_eq!(&encoded[..3], &[0x00, 0x01, 0x04]);
    assert_eq!(encoded.len(), 3 + 32 + 32);
    let decoded = decode_buffer(&encoded, &keys).unwrap();
    assert_eq!(decoded, input);
}

#[test]
fn pipeline_huffman_then_rle() {
    let input: Vec<u8> = b"mississippi".to_vec();
    let encoded = encode_buffer(&input, &vec![1u8, 2u8], &Vec::new()).unwrap();
    assert_eq!(&encoded[..4], &[0x00, 0x02, 0x01, 0x02]);
    let decoded = decode_buffer(&encoded, &Vec::new()).unwrap();
    assert_eq!(decoded, input);
}

#[test]
fn pipeline_huffman_then_aes_random_kilobyte() {
    let input = pseudo_random_buffer(1024);
    let keys = vec![key_from_ascii("secret")];
    let encoded = encode_buffer(&input, &vec![1u8, 4u8], &keys).unwrap();
    let r = decode_buffer(&encoded, &vec![key_from_ascii("wrong")]);
    assert!(matches!(r, Err(CodecError::PermissionDenied)));
    let decoded = decode_buffer(&encoded, &keys).unwrap();
    assert_eq!(decoded, input);
}

#[test]
fn pipeline_all_stages_round_trip() {
    let input = pseudo_random_buffer(257);
    let keys = vec![key_from_ascii("one"), key_from_ascii("two")];
    for stages in [
        vec![1u8, 2, 3, 4],
        vec![4u8, 3, 2, 1],
        vec![3u8, 1, 4, 2],
        vec![2u8, 4, 1, 3],
    ] {
        let encoded = encode_buffer(&input, &stages, &keys).unwrap();
        let decoded = decode_buffer(&encoded, &keys).unwrap();
        assert_eq!(decoded, input);
    }
}

#[test]
fn pipeline_empty_input_every_single_stage() {
    let input: Vec<u8> = Vec::new();
    let keys = vec![key_from_ascii("k")];
    for stage in 1u8..=4u8 {
        let encoded = encode_buffer(&input, &vec![stage], &keys).unwrap();
        let decoded = decode_buffer(&encoded, &keys).unwrap();
        assert_eq!(decoded, input);
    }
}

#[test]
fn pipeline_single_byte_every_single_stage() {
    let input: Vec<u8> = vec![0x5A];
    let keys = vec![key_from_ascii("k")];
    for stage in 1u8..=4u8 {
        let encoded = encode_buffer(&input, &vec![stage], &keys).unwrap();
        let decoded = decode_buffer(&encoded, &keys).unwrap();
        assert_eq!(decoded, input);
    }
}

#[test]
fn pipeline_wrong_signature_is_invalid_format() {
    let r = decode_buffer(&vec![0x07, 0x01, 0x01, 0x00], &Vec::new());
    assert!(matches!(r, Err(CodecError::InvalidFormat)));
    let r2 = decode_buffer(&vec![0x00], &Vec::new());
    assert!(matches!(r2, Err(CodecError::InvalidFormat)));
}

#[test]
fn pipeline_unknown_stage_is_invalid_codec() {
    // stage 5 (reserved) and stage 0 (the signature itself) are refused
    let r = decode_buffer(&vec![0x00, 0x01, 0x05, 0x42], &Vec::new());
    assert!(matches!(r, Err(CodecError::InvalidCodec)));
    let r2 = decode_buffer(&vec![0x00, 0x01, 0x00, 0x42], &Vec::new());
    assert!(matches!(r2, Err(CodecError::InvalidCodec)));
    let r3 = encode_buffer(&b"x".to_vec(), &vec![6u8], &Vec::new());
    assert!(matches!(r3, Err(CodecError::InvalidCodec)));
}

#[test]
fn pipeline_missing_key_on_both_sides() {
    let input: Vec<u8> = b"data".to_vec();
    let r = encode_buffer(&input, &vec![3u8], &Vec::new());
    assert!(matches!(r, Err(CodecError::MissingKey)));
    let keys = vec![key_from_ascii("k")];
    let encoded = encode_buffer(&input, &vec![4u8], &keys).unwrap();
    let r2 = decode_buffer(&encoded, &Vec::new());
    assert!(matches!(r2, Err(CodecError::MissingKey)));
}

#[test]
fn pipeline_keys_in_declared_order() {
    // two keyed stages: keys are consumed in declared order on decode too
    let input = pseudo_random_buffer(50);
    let keys = vec![key_from_ascii("first"), key_from_ascii("second")];
    let encoded = encode_buffer(&input, &vec![3u8, 4u8], &keys).unwrap();
    let decoded = decode_buffer(&encoded, &keys).unwrap();
    assert_eq!(decoded, input);
    let swapped = vec![key_from_ascii("second"), key_from_ascii("first")];
    let r = decode_buffer(&encoded, &swapped);
    assert!(matches!(r, Err(CodecError::PermissionDenied)));
}

#[test]
fn validate_signature_byte() {
    assert!(validate_encoded_file(0).is_ok());
    assert!(matches!(validate_encoded_file(1), Err(CodecError::InvalidFormat)));
}

#[test]
fn codec_list_byte_mapping() {
    assert!(matches!(CodecList::from_byte(0), Some(CodecList::RustyZipper)));
    assert!(matches!(CodecList::from_byte(1), Some(CodecList::Huffman)));
    assert!(matches!(CodecList::from_byte(2), Some(CodecList::RLE)));
    assert!(matches!(CodecList::from_byte(3), Some(CodecList::Caesar)));
    assert!(matches!(CodecList::from_byte(4), Some(CodecList::AES)));
    assert!(matches!(CodecList::from_byte(5), Some(CodecList::LZ77)));
    assert!(matches!(CodecList::from_byte(6), Some(CodecList::Arithmetic)));
    assert!(CodecList::from_byte(7).is_none());
    assert_eq!(CodecList::Huffman.to_byte(), 1);
    assert_eq!(CodecList::AES.to_byte(), 4);
}
