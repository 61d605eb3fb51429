//! Stage identifiers, the error kinds shared by every codec, and the common
//! contract (`CodecFunctions`) that each stage implementation satisfies.

use vstd::prelude::*;

verus! {

/// Error kinds reported by the codecs and the pipeline driver.
#[derive(Clone, Copy, Debug, PartialEq, Eq, Structural)]
pub enum CodecError {
    /// The container signature is wrong or the buffer is too short to be a container.
    InvalidFormat,
    /// A stage identifier does not name an implemented codec.
    InvalidCodec,
    /// A keyed stage was reached with no key available.
    MissingKey,
    /// The key fingerprint stored in a keyed stage's output does not match the supplied key.
    PermissionDenied,
    /// A stage-internal inconsistency, such as a truncated header.
    InvalidData,
    /// A failure at the file boundary; never produced by the library itself.
    IoError,
}

/// The closed enumeration of codec identifiers, in their reserved numeric order:
/// the container signature, four implemented stages, and two reserved names.
#[derive(Clone, Copy, Debug, PartialEq, Eq, Structural)]
pub enum CodecList {
    RustyZipper,
    Huffman,
    RLE,
    Caesar,
    AES,
    LZ77,
    Arithmetic,
}

/// The byte that identifies a codec in the container header.
pub open spec fn spec_codec_id(c: CodecList) -> u8 {
    match c {
        CodecList::RustyZipper => 0,
        CodecList::Huffman => 1,
        CodecList::RLE => 2,
        CodecList::Caesar => 3,
        CodecList::AES => 4,
        CodecList::LZ77 => 5,
        CodecList::Arithmetic => 6,
    }
}

/// The codec named by a byte, if any.
pub open spec fn spec_codec_of_byte(b: u8) -> Option<CodecList> {
    if b == 0 {
        Some(CodecList::RustyZipper)
    } else if b == 1 {
        Some(CodecList::Huffman)
    } else if b == 2 {
        Some(CodecList::RLE)
    } else if b == 3 {
        Some(CodecList::Caesar)
    } else if b == 4 {
        Some(CodecList::AES)
    } else if b == 5 {
        Some(CodecList::LZ77)
    } else if b == 6 {
        Some(CodecList::Arithmetic)
    } else {
        None
    }
}

/// Whether a byte names an implemented pipeline stage.
pub open spec fn spec_is_stage_id(b: u8) -> bool {
    b == 1 || b == 2 || b == 3 || b == 4
}

/// Whether the stage named by a byte consumes a key.
pub open spec fn spec_stage_keyed(b: u8) -> bool {
    b == 3 || b == 4
}

impl CodecList {
    /// The numeric identifier persisted in the container header.
    pub fn to_byte(self) -> (r: u8)
        ensures
            r == spec_codec_id(self),
    {
        match self {
            CodecList::RustyZipper => 0,
            CodecList::Huffman => 1,
            CodecList::RLE => 2,
            CodecList::Caesar => 3,
            CodecList::AES => 4,
            CodecList::LZ77 => 5,
            CodecList::Arithmetic => 6,
        }
    }

    /// The codec named by a byte read from a container header.
    pub fn from_byte(b: u8) -> (r: Option<CodecList>)
        ensures
            r == spec_codec_of_byte(b),
    {
        if b == 0 {
            Some(CodecList::RustyZipper)
        } else if b == 1 {
            Some(CodecList::Huffman)
        } else if b == 2 {
            Some(CodecList::RLE)
        } else if b == 3 {
            Some(CodecList::Caesar)
        } else if b == 4 {
            Some(CodecList::AES)
        } else if b == 5 {
            Some(CodecList::LZ77)
        } else if b == 6 {
            Some(CodecList::Arithmetic)
        } else {
            None
        }
    }
}

/// The key supplied to a stage, as a mathematical value.
pub open spec fn view_key(key: Option<&i128>) -> Option<i128> {
    match key {
        Some(k) => Some(*k),
        None => None,
    }
}

/// The contract shared by every stage implementation.
///
/// `spec_valid_encoding(enc, orig, key)` says that `enc` is a possible output
/// of this codec's `encode` on input `orig` with key `key`; `decode` recovers
/// `orig` exactly from any such `enc`, which is the round-trip law for the
/// stage. `spec_encode_err` and `spec_decode_err` pin down exactly which
/// inputs are rejected, and with which error.
pub trait CodecFunctions {
    /// Whether this codec consumes a key.
    spec fn spec_keyed() -> bool;

    /// `enc` is a possible output of `encode(orig, key)`.
    spec fn spec_valid_encoding(enc: Seq<u8>, orig: Seq<u8>, key: Option<i128>) -> bool;

    /// The error returned by `encode`, if any, on the given input.
    spec fn spec_encode_err(data: Seq<u8>, key: Option<i128>) -> Option<CodecError>;

    /// The error returned by `decode`, if any, on the given input.
    spec fn spec_decode_err(enc: Seq<u8>, key: Option<i128>) -> Option<CodecError>;

    /// Applies the stage's forward transformation to a whole buffer.
    fn encode(data: &Vec<u8>, key: Option<&i128>) -> (r: Result<Vec<u8>, CodecError>)
        ensures
            match Self::spec_encode_err(data@, view_key(key)) {
                Some(e) => r is Err && r->Err_0 == e,
                None => r is Ok && Self::spec_valid_encoding(r->Ok_0@, data@, view_key(key)),
            },
    ;

    /// Applies the stage's inverse transformation to a whole buffer.
    fn decode(encoded_data: &Vec<u8>, key: Option<&i128>) -> (r: Result<Vec<u8>, CodecError>)
        ensures
            match Self::spec_decode_err(encoded_data@, view_key(key)) {
                Some(e) => r is Err && r->Err_0 == e,
                None => r is Ok,
            },
            forall|orig: Seq<u8>|
                #[trigger] Self::spec_valid_encoding(encoded_data@, orig, view_key(key))
                    && (Self::spec_keyed() ==> key is Some)
                    ==> r is Ok && r->Ok_0@ == orig,
    ;
}

} // verus!
