use rustyzipper::bits::{bits_from_bytes, bytes_from_bits};
use rustyzipper::codec::CodecFunctions;
use sha2::Digest;
use rustyzipper::hash_handling::{hash_key, verify_hash, key_bytes};
use rustyzipper::huffman::HuffmanEncoder;
use rustyzipper::rle::RLEEncoder;

#[test]
fn bits_of_one_byte_most_significant_first() {
    let bits = bits_from_bytes(&[0xA5]);
    assert_eq!(bits, vec![true, false, true, false, false, true, false, true]);
}

#[test]
fn bytes_of_partial_bits_zero_filled_low() {
    // three bits 101 pack into one byte 1010_0000
    let bytes = bytes_from_bits(&[true, false, true]);
    assert_eq!(bytes, vec![0xA0]);
}

#[test]
fn bits_bytes_round_trip() {
    let bytes: Vec<u8> = vec![0x00, 0xFF, 0x37, 0x80, 0x01];
    let bits = bits_from_bytes(&bytes);
    assert_eq!(bits.len(), 40);
    let packed = bytes_from_bits(&bits);
    assert_eq!(packed, bytes);
}

#[test]
fn key_bytes_are_big_endian() {
    let k: i128 = 0x31;
    let kb = key_bytes(&k);
    assert_eq!(kb.len(), 16);
    assert_eq!(kb[15], 0x31);
    assert_eq!(&kb[..15], &[0u8; 15]);
    assert_eq!(kb, k.to_be_bytes().to_vec());
}

#[test]
fn key_bytes_of_negative_keys() {
    let minus_one: i128 = -1;
    assert_eq!(key_bytes(&minus_one), vec![0xFFu8; 16]);
    let k: i128 = -123456789;
    assert_eq!(key_bytes(&k), k.to_be_bytes().to_vec());
    let high = i128::from_be_bytes([0x80, 1, 2, 3, 4, 5, 6, 7, 8, 9, 10, 11, 12, 13, 14, 15]);
    assert_eq!(key_bytes(&high), high.to_be_bytes().to_vec());
}

#[test]
fn hash_key_matches_direct_sha256() {
    let k: i128 = 0x6B6579; // ASCII "key" right-aligned
    let fp = hash_key(&k);
    let expected = sha2::Sha256::digest(&k.to_be_bytes());
    assert_eq!(fp.as_slice(), expected.as_slice());
    assert!(verify_hash(&k, fp.as_slice()));
    assert!(!verify_hash(&(k + 1), fp.as_slice()));
    assert!(!verify_hash(&k, &fp[..31]));
}

#[test]
fn obtain_frequencies_counts_bytes() {
    let input: Vec<u8> = b"mississippi".to_vec();
    let freqs = HuffmanEncoder::obtain_frequencies(&input);
    assert_eq!(freqs.len(), 256);
    assert_eq!(freqs[b'm' as usize], 1);
    assert_eq!(freqs[b'i' as usize], 4);
    assert_eq!(freqs[b's' as usize], 4);
    assert_eq!(freqs[b'p' as usize], 2);
    assert_eq!(freqs[b'x' as usize], 0);
}

#[test]
fn huffman_pieces_round_trip() {
    let input: Vec<u8> = b"abracadabra".to_vec();
    let freqs = HuffmanEncoder::obtain_frequencies(&input);
    let encoder = HuffmanEncoder::new(&freqs);
    let (codes, packed) = encoder.encode_data(&input);
    let buffer = HuffmanEncoder::write_to_buffer(&codes, &packed, input.len()).unwrap();
    let (read_codes, read_payload, read_len) = HuffmanEncoder::read_from_buffer(&buffer).unwrap();
    assert_eq!(read_len, input.len());
    assert_eq!(read_payload, packed);
    assert_eq!(read_codes.len(), codes.len());
    for (a, b) in read_codes.iter().zip(codes.iter()) {
        assert_eq!(a.0, b.0);
        assert_eq!(a.1, b.1);
    }
    let decoded = encoder.decode_data(&read_payload, read_len);
    assert_eq!(decoded, input);
}

#[test]
fn rle_constructors_are_usable() {
    let fresh = RLEEncoder::new();
    let from_buffer = RLEEncoder::new_from_buffer(b"aaabbb");
    // both feed the same public surface; exercise it through the codec calls
    let _ = (fresh, from_buffer);
    let encoded = RLEEncoder::encode(&b"aaabbb".to_vec(), None).unwrap();
    assert_eq!(encoded.len(), 10);
    assert_eq!(encoded[0], b'a');
    assert_eq!(encoded[4], 3);
    assert_eq!(encoded[5], b'b');
    assert_eq!(encoded[9], 3);
}

#[test]
fn rle_long_run_splits_at_count_limit() {
    // counts are capped at the largest 32-bit value, so a run never wraps;
    // check the cap logic on the serialized form of a small synthetic case
    let encoded = RLEEncoder::encode(&vec![7u8; 70000], None).unwrap();
    assert_eq!(encoded, vec![7u8, 0x00, 0x01, 0x11, 0x70]);
}
