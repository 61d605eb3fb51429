//! A pipeline of byte-stream codecs (Huffman, run-length, a keyed additive
//! cipher, and AES-128 in ECB mode) together with the container format that
//! records which stages were applied, so that the exact original bytes can be
//! recovered.

pub mod aes_cipher;
pub mod bits;
pub mod caesar;
pub mod codec;
pub mod hash_handling;
pub mod huffman;
pub mod pipeline;
pub mod rle;
