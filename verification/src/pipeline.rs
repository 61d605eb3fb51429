//! The pipeline driver and the container: stages applied in declared order on
//! encode, the container header written in front of the final payload, and
//! the inverse stages applied in reverse order on decode. Keys are consumed
//! in declared-stage order on both sides.

use vstd::prelude::*;
use crate::codec::{
    CodecError, CodecFunctions, CodecList, view_key, spec_is_stage_id, spec_stage_keyed,
};
use crate::hash_handling::spec_fingerprint;
use crate::huffman::HuffmanEncoder;
use crate::rle::RLEEncoder;
use crate::caesar::CaesarEncoder;
use crate::aes_cipher::AESEncoder;

verus! {

/// Checks the container signature.
pub fn validate_encoded_file(first_byte: u8) -> (r: Result<(), CodecError>)
    ensures
        r is Ok <==> first_byte == 0,
        r is Err ==> r->Err_0 == CodecError::InvalidFormat,
{
    if first_byte != 0 {
        return Err(CodecError::InvalidFormat);
    }
    Ok(())
}

/// How many of the stages consume a key.
pub open spec fn spec_keyed_count(stages: Seq<u8>) -> nat
    decreases stages.len(),
{
    if stages.len() == 0 {
        0
    } else {
        spec_keyed_count(stages.drop_last()) + (if spec_stage_keyed(stages.last()) {
            1nat
        } else {
            0nat
        })
    }
}

/// The key handed to the stage at position `i`: keys are consumed in
/// declared order by the keyed stages.
pub open spec fn spec_stage_key(stages: Seq<u8>, keys: Seq<i128>, i: int) -> Option<i128> {
    if spec_stage_keyed(stages[i]) {
        Some(keys[spec_keyed_count(stages.take(i)) as int])
    } else {
        None
    }
}

/// The error, if any, that the stage named `id` reports when decoding `enc`
/// with the given key.
pub open spec fn spec_stage_decode_err(id: u8, enc: Seq<u8>, key: Option<i128>) -> Option<
    CodecError,
> {
    if id == 1 {
        <HuffmanEncoder as CodecFunctions>::spec_decode_err(enc, key)
    } else if id == 2 {
        <RLEEncoder as CodecFunctions>::spec_decode_err(enc, key)
    } else if id == 3 {
        <CaesarEncoder as CodecFunctions>::spec_decode_err(enc, key)
    } else if id == 4 {
        <AESEncoder as CodecFunctions>::spec_decode_err(enc, key)
    } else {
        Some(CodecError::InvalidCodec)
    }
}

/// `enc` is a possible output of the stage named `id` on `orig`.
pub open spec fn spec_stage_valid(id: u8, enc: Seq<u8>, orig: Seq<u8>, key: Option<i128>) -> bool {
    if id == 1 {
        <HuffmanEncoder as CodecFunctions>::spec_valid_encoding(enc, orig, key)
    } else if id == 2 {
        <RLEEncoder as CodecFunctions>::spec_valid_encoding(enc, orig, key)
    } else if id == 3 {
        <CaesarEncoder as CodecFunctions>::spec_valid_encoding(enc, orig, key)
    } else if id == 4 {
        <AESEncoder as CodecFunctions>::spec_valid_encoding(enc, orig, key)
    } else {
        false
    }
}

/// `enc` is a possible result of feeding `orig` through `stages` in order,
/// with keys at their declared positions.
pub open spec fn spec_stages_valid(
    enc: Seq<u8>,
    orig: Seq<u8>,
    stages: Seq<u8>,
    keys: Seq<i128>,
) -> bool
    decreases stages.len(),
{
    if stages.len() == 0 {
        enc == orig
    } else {
        exists|mid: Seq<u8>|
            spec_stages_valid(mid, orig, stages.drop_last(), keys) && #[trigger] spec_stage_valid(
                stages.last(),
                enc,
                mid,
                spec_stage_key(stages, keys, stages.len() - 1),
            )
    }
}

/// The stage identifier list recorded in a container.
pub open spec fn spec_codecs_of(file: Seq<u8>) -> Seq<u8> {
    file.subrange(2, 2 + file[1] as int)
}

/// `file` is a well-formed container holding a valid encoding of `orig`
/// under its recorded stages and the supplied keys.
pub open spec fn spec_container_valid(file: Seq<u8>, orig: Seq<u8>, keys: Seq<i128>) -> bool {
    &&& file.len() >= 2
    &&& file[0] == 0
    &&& file.len() >= 2 + file[1] as int
    &&& forall|i: int|
        0 <= i < spec_codecs_of(file).len() ==> spec_is_stage_id(#[trigger] spec_codecs_of(file)[i])
    &&& keys.len() >= spec_keyed_count(spec_codecs_of(file))
    &&& spec_stages_valid(
        file.skip(2 + file[1] as int),
        orig,
        spec_codecs_of(file),
        keys,
    )
}

/// One more stage adds its key demand.
proof fn lemma_keyed_count_step(s: Seq<u8>, m: int)
    requires
        0 < m <= s.len(),
    ensures
        spec_keyed_count(s.take(m)) == spec_keyed_count(s.take(m - 1)) + (if spec_stage_keyed(
            s[m - 1],
        ) {
            1nat
        } else {
            0nat
        }),
{
    assert(s.take(m).drop_last() =~= s.take(m - 1));
    assert(s.take(m).last() == s[m - 1]);
}

/// Earlier prefixes demand no more keys than later ones.
proof fn lemma_keyed_count_mono(s: Seq<u8>, a: int, b: int)
    requires
        0 <= a <= b <= s.len(),
    ensures
        spec_keyed_count(s.take(a)) <= spec_keyed_count(s.take(b)),
    decreases b - a,
{
    if a < b {
        lemma_keyed_count_mono(s, a, b - 1);
        lemma_keyed_count_step(s, b);
    }
}

/// A stretch of unkeyed stages demands no keys.
proof fn lemma_keyed_count_const(s: Seq<u8>, a: int, b: int)
    requires
        0 <= a <= b <= s.len(),
        forall|j: int| a <= j < b ==> !spec_stage_keyed(#[trigger] s[j]),
    ensures
        spec_keyed_count(s.take(a)) == spec_keyed_count(s.take(b)),
    decreases b - a,
{
    if a < b {
        lemma_keyed_count_const(s, a, b - 1);
        lemma_keyed_count_step(s, b);
    }
}

/// The container's last stage — the first one undone on decode — is keyed,
/// its key is supplied, and the fingerprint stored at the front of the
/// payload does not match that key; the payload passes the stage's length
/// check.
pub open spec fn spec_last_stage_wrong_key(file: Seq<u8>, keys: Seq<i128>) -> bool {
    let n = file[1] as int;
    let codecs = spec_codecs_of(file);
    let payload = file.skip(2 + n);
    &&& file.len() >= 2 + n
    &&& file[0] == 0
    &&& n >= 1
    &&& (forall|i: int| 0 <= i < n ==> spec_is_stage_id(#[trigger] codecs[i]))
    &&& spec_stage_keyed(codecs[n - 1])
    &&& spec_keyed_count(codecs.take(n - 1)) < keys.len()
    &&& payload.len() >= (if codecs[n - 1] == 3 {
        32int
    } else {
        33int
    })
    &&& payload.take(32) != spec_fingerprint(keys[spec_keyed_count(codecs.take(n - 1)) as int])
}

/// Where the stages demand more than `k` keys, some keyed stage stands at
/// key position `k` exactly.
proof fn lemma_keyed_position(s: Seq<u8>, k: nat)
    requires
        k < spec_keyed_count(s),
    ensures
        exists|j: int|
            0 <= j < s.len() && spec_stage_keyed(#[trigger] s[j]) && spec_keyed_count(s.take(j))
                == k,
    decreases s.len(),
{
    if s.len() > 0 {
        if k < spec_keyed_count(s.drop_last()) {
            lemma_keyed_position(s.drop_last(), k);
            let j = choose|j: int|
                0 <= j < s.drop_last().len() && spec_stage_keyed(#[trigger] s.drop_last()[j])
                    && spec_keyed_count(s.drop_last().take(j)) == k;
            assert(s.drop_last().take(j) =~= s.take(j));
            assert(s[j] == s.drop_last()[j]);
            assert(spec_stage_keyed(s[j]) && spec_keyed_count(s.take(j)) == k);
        } else {
            let j = s.len() - 1;
            assert(spec_stage_keyed(s[j as int]));
            assert(s.take(j as int) =~= s.drop_last());
            assert(spec_stage_keyed(s[j as int]) && spec_keyed_count(s.take(j as int)) == k);
        }
    }
}

/// Every Huffman stage in the chain is fed a buffer short enough for the
/// header's 32-bit length field, whatever valid intermediates arise before
/// it.
pub open spec fn spec_huffman_inputs_fit(orig: Seq<u8>, stages: Seq<u8>, keys: Seq<i128>) -> bool
    decreases stages.len(),
{
    if stages.len() == 0 {
        true
    } else {
        &&& spec_huffman_inputs_fit(orig, stages.drop_last(), keys)
        &&& (stages.last() == 1 ==> forall|mid: Seq<u8>|
            spec_stages_valid(mid, orig, stages.drop_last(), keys) ==> mid.len() < 0x1_0000_0000)
    }
}

/// The fit condition carries over to every stage prefix.
proof fn lemma_fits_prefix(orig: Seq<u8>, stages: Seq<u8>, keys: Seq<i128>, m: int)
    requires
        spec_huffman_inputs_fit(orig, stages, keys),
        0 <= m <= stages.len(),
    ensures
        spec_huffman_inputs_fit(orig, stages.take(m), keys),
    decreases stages.len() - m,
{
    if m == stages.len() {
        assert(stages.take(m) =~= stages);
    } else {
        lemma_fits_prefix(orig, stages, keys, m + 1);
        assert(stages.take(m + 1).drop_last() =~= stages.take(m));
    }
}

/// Applies one stage's forward transformation.
fn encode_stage(id: u8, data: &Vec<u8>, key: Option<&i128>) -> (r: Result<Vec<u8>, CodecError>)
    ensures
        !spec_is_stage_id(id) ==> r is Err && r->Err_0 == CodecError::InvalidCodec,
        spec_is_stage_id(id) && spec_stage_keyed(id) && key is None ==> r is Err && r->Err_0
            == CodecError::MissingKey,
        spec_is_stage_id(id) && (spec_stage_keyed(id) ==> key is Some) && (id == 1
            ==> data@.len() < 0x1_0000_0000) ==> r is Ok && spec_stage_valid(
            id,
            r->Ok_0@,
            data@,
            view_key(key),
        ),
        id == 1 && data@.len() >= 0x1_0000_0000 ==> r is Err && r->Err_0
            == CodecError::InvalidData,
        id == 1 && data@.len() == 0 ==> r is Ok && r->Ok_0@ == seq![0u8, 0, 0, 0, 0, 0],
        r is Err ==> r->Err_0 == CodecError::InvalidCodec || r->Err_0 == CodecError::MissingKey
            || r->Err_0 == CodecError::InvalidData,
{
    if id == 1 {
        HuffmanEncoder::encode(data, key)
    } else if id == 2 {
        RLEEncoder::encode(data, key)
    } else if id == 3 {
        CaesarEncoder::encode(data, key)
    } else if id == 4 {
        AESEncoder::encode(data, key)
    } else {
        Err(CodecError::InvalidCodec)
    }
}

/// Applies one stage's inverse transformation; on any valid encoding with
/// the right key it recovers the original exactly.
fn decode_stage(id: u8, data: &Vec<u8>, key: Option<&i128>) -> (r: Result<Vec<u8>, CodecError>)
    ensures
        !spec_is_stage_id(id) ==> r is Err && r->Err_0 == CodecError::InvalidCodec,
        spec_is_stage_id(id) ==> (match spec_stage_decode_err(id, data@, view_key(key)) {
            Some(e) => r is Err && r->Err_0 == e,
            None => r is Ok,
        }),
        forall|orig: Seq<u8>|
            #[trigger] spec_stage_valid(id, data@, orig, view_key(key)) && (spec_stage_keyed(id)
                ==> key is Some) ==> r is Ok && r->Ok_0@ == orig,
{
    if id == 1 {
        HuffmanEncoder::decode(data, key)
    } else if id == 2 {
        RLEEncoder::decode(data, key)
    } else if id == 3 {
        CaesarEncoder::decode(data, key)
    } else if id == 4 {
        AESEncoder::decode(data, key)
    } else {
        Err(CodecError::InvalidCodec)
    }
}

/// How many keyed stages stand among the first `upto` identifiers.
fn count_keyed(codecs: &Vec<u8>, upto: usize) -> (r: usize)
    requires
        upto <= codecs@.len(),
    ensures
        r == spec_keyed_count(codecs@.take(upto as int)),
        r <= upto,
{
    let mut c: usize = 0;
    let mut i: usize = 0;
    proof {
        assert(codecs@.take(0) =~= Seq::<u8>::empty());
    }
    while i < upto
        invariant
            upto <= codecs@.len(),
            i <= upto,
            c <= i,
            c == spec_keyed_count(codecs@.take(i as int)),
        decreases upto - i,
    {
        let id = codecs[i];
        proof {
            lemma_keyed_count_step(codecs@, i + 1);
        }
        if id == 3 || id == 4 {
            c = c + 1;
        }
        i = i + 1;
    }
    c
}

/// Feeds the input through the declared stages in order and wraps the result
/// in the container: signature byte, stage count, stage identifiers, payload.
/// Keys are consumed in declared order by the keyed stages; surplus keys are
/// ignored.
pub fn encode_buffer(data: &Vec<u8>, codecs: &Vec<u8>, keys: &Vec<i128>) -> (r: Result<
    Vec<u8>,
    CodecError,
>)
    requires
        codecs@.len() <= 255,
    ensures
        r is Ok ==> spec_container_valid(r->Ok_0@, data@, keys@) && spec_codecs_of(r->Ok_0@)
            == codecs@,
        (forall|i: int| 0 <= i < codecs@.len() ==> spec_is_stage_id(#[trigger] codecs@[i]))
            && keys@.len() >= spec_keyed_count(codecs@) && spec_huffman_inputs_fit(
            data@,
            codecs@,
            keys@,
        ) ==> r is Ok,
        (exists|i: int| 0 <= i < codecs@.len() && !spec_is_stage_id(#[trigger] codecs@[i]))
            || keys@.len() < spec_keyed_count(codecs@) ==> r is Err,
        r is Err ==> r->Err_0 == CodecError::InvalidCodec || r->Err_0 == CodecError::MissingKey
            || r->Err_0 == CodecError::InvalidData,
        r is Err && (forall|i: int|
            0 <= i < codecs@.len() ==> spec_is_stage_id(#[trigger] codecs@[i])) && keys@.len()
            >= spec_keyed_count(codecs@) ==> r->Err_0 == CodecError::InvalidData,
        r is Err && r->Err_0 == CodecError::InvalidCodec ==> exists|i: int|
            0 <= i < codecs@.len() && !spec_is_stage_id(#[trigger] codecs@[i]),
        r is Err && r->Err_0 == CodecError::MissingKey ==> keys@.len() < spec_keyed_count(codecs@),
        (forall|i: int| 0 <= i < codecs@.len() ==> spec_is_stage_id(#[trigger] codecs@[i]))
            && spec_huffman_inputs_fit(data@, codecs@, keys@) && keys@.len() < spec_keyed_count(
            codecs@,
        ) ==> r is Err && r->Err_0 == CodecError::MissingKey,
        data@.len() == 0 && codecs@ == seq![1u8] ==> r is Ok && r->Ok_0@ == seq![
            0u8,
            1,
            1,
            0,
            0,
            0,
            0,
            0,
            0,
        ],
{
    let n = codecs.len();
    let mut global_buffer: Vec<u8> = Vec::new();
    let dn = data.len();
    let mut d: usize = 0;
    while d < dn
        invariant
            dn == data@.len(),
            d <= dn,
            global_buffer@ == data@.take(d as int),
        decreases dn - d,
    {
        global_buffer.push(data[d]);
        proof {
            assert(global_buffer@ =~= data@.take(d + 1));
        }
        d = d + 1;
    }
    proof {
        assert(data@.take(dn as int) =~= data@);
        assert(codecs@.take(0) =~= Seq::<u8>::empty());
    }
    let mut key_index: usize = 0;
    let mut i: usize = 0;
    while i < n
        invariant
            n == codecs@.len(),
            n <= 255,
            i <= n,
            key_index <= keys@.len(),
            key_index == spec_keyed_count(codecs@.take(i as int)),
            forall|q: int| 0 <= q < i ==> spec_is_stage_id(#[trigger] codecs@[q]),
            spec_stages_valid(global_buffer@, data@, codecs@.take(i as int), keys@),
            data@.len() == 0 && codecs@ == seq![1u8] ==> global_buffer@ == (if i == 0 {
                data@
            } else {
                seq![0u8, 0, 0, 0, 0, 0]
            }),
        decreases n - i,
    {
        let id = codecs[i];
        if !(id == 1 || id == 2 || id == 3 || id == 4) {
            proof {
                assert(!spec_is_stage_id(codecs@[i as int]));
            }
            return Err(CodecError::InvalidCodec);
        }
        let key_opt: Option<&i128> = if id == 3 || id == 4 {
            if key_index < keys.len() {
                let kref = &keys[key_index];
                key_index = key_index + 1;
                Some(kref)
            } else {
                proof {
                    lemma_keyed_count_step(codecs@, i + 1);
                    lemma_keyed_count_mono(codecs@, i + 1, n as int);
                    assert(codecs@.take(n as int) =~= codecs@);
                    assert(keys@.len() < spec_keyed_count(codecs@));
                }
                return Err(CodecError::MissingKey);
            }
        } else {
            None
        };
        let ghost mid = global_buffer@;
        match encode_stage(id, &global_buffer, key_opt) {
            Ok(out) => {
                global_buffer = out;
            },
            Err(e) => {
                proof {
                    // only Huffman's 32-bit length limit can fail here
                    assert(id == 1 && mid.len() >= 0x1_0000_0000);
                    assert(e == CodecError::InvalidData);
                    if spec_huffman_inputs_fit(data@, codecs@, keys@) {
                        lemma_fits_prefix(data@, codecs@, keys@, i + 1);
                        assert(codecs@.take(i + 1).last() == id);
                        assert(codecs@.take(i + 1).drop_last() =~= codecs@.take(i as int));
                        assert(spec_stages_valid(
                            mid,
                            data@,
                            codecs@.take(i + 1).drop_last(),
                            keys@,
                        ));
                        assert(false);
                    }
                }
                return Err(e);
            },
        }
        proof {
            lemma_keyed_count_step(codecs@, i + 1);
            let stages1 = codecs@.take(i + 1);
            assert(stages1.drop_last() =~= codecs@.take(i as int));
            assert(stages1.last() == id);
            assert(stages1.take(i as int) =~= codecs@.take(i as int));
            assert(spec_stage_key(stages1, keys@, i as int) == view_key(key_opt));
            assert(spec_stage_valid(id, global_buffer@, mid, view_key(key_opt)));
            assert(spec_stages_valid(global_buffer@, data@, stages1, keys@));
            if data@.len() == 0 && codecs@ == seq![1u8] {
                assert(i == 0);
                assert(global_buffer@ == seq![0u8, 0, 0, 0, 0, 0]);
            }
        }
        i = i + 1;
    }
    proof {
        assert(codecs@.take(n as int) =~= codecs@);
    }
    let mut result: Vec<u8> = Vec::new();
    result.push(0u8);
    result.push(n as u8);
    let mut c: usize = 0;
    while c < n
        invariant
            n == codecs@.len(),
            n <= 255,
            c <= n,
            result@ == seq![0u8, n as u8] + codecs@.take(c as int),
        decreases n - c,
    {
        result.push(codecs[c]);
        proof {
            assert(result@ =~= seq![0u8, n as u8] + codecs@.take(c + 1));
        }
        c = c + 1;
    }
    proof {
        assert(codecs@.take(n as int) =~= codecs@);
    }
    let ghost head = result@;
    let pn = global_buffer.len();
    let mut p: usize = 0;
    while p < pn
        invariant
            pn == global_buffer@.len(),
            p <= pn,
            result@ == head + global_buffer@.take(p as int),
        decreases pn - p,
    {
        result.push(global_buffer[p]);
        proof {
            assert(result@ =~= head + global_buffer@.take(p + 1));
        }
        p = p + 1;
    }
    proof {
        assert(global_buffer@.take(pn as int) =~= global_buffer@);
        assert(result@[0] == 0);
        assert(result@[1] == n as u8);
        assert(spec_codecs_of(result@) =~= codecs@);
        assert(result@.skip(2 + n) =~= global_buffer@);
        if data@.len() == 0 && codecs@ == seq![1u8] {
            assert(result@ =~= seq![0u8, 1, 1, 0, 0, 0, 0, 0, 0]);
        }
    }
    Ok(result)
}

/// Reads the container, checks the signature and every stage identifier,
/// then applies the inverse stages in reverse order; keys are taken in
/// declared-stage order. Decoding a valid container with its keys yields the
/// original bytes exactly.
pub fn decode_buffer(file: &Vec<u8>, keys: &Vec<i128>) -> (r: Result<Vec<u8>, CodecError>)
    ensures
        file@.len() < 2 ==> r is Err && r->Err_0 == CodecError::InvalidFormat,
        file@.len() >= 2 && file@[0] != 0 ==> r is Err && r->Err_0 == CodecError::InvalidFormat,
        file@.len() >= 2 && file@[0] == 0 && file@.len() < 2 + file@[1] as int ==> r is Err
            && r->Err_0 == CodecError::InvalidFormat,
        file@.len() >= 2 + file@[1] as int && file@[0] == 0 && (exists|i: int|
            0 <= i < spec_codecs_of(file@).len() && !spec_is_stage_id(
                #[trigger] spec_codecs_of(file@)[i],
            )) ==> r is Err && r->Err_0 == CodecError::InvalidCodec,
        file@.len() >= 2 + file@[1] as int && file@[0] == 0 && (forall|i: int|
            0 <= i < spec_codecs_of(file@).len() ==> spec_is_stage_id(
                #[trigger] spec_codecs_of(file@)[i],
            )) && keys@.len() < spec_keyed_count(spec_codecs_of(file@)) ==> r is Err,
        spec_last_stage_wrong_key(file@, keys@) ==> r is Err && r->Err_0
            == CodecError::PermissionDenied,
        forall|orig: Seq<u8>, keys_full: Seq<i128>|
            #[trigger] spec_container_valid(file@, orig, keys_full) && keys@ == keys_full.take(
                keys@.len() as int,
            ) && keys@.len() < spec_keyed_count(spec_codecs_of(file@)) ==> r is Err && r->Err_0
                == CodecError::MissingKey,
        forall|orig: Seq<u8>|
            #[trigger] spec_container_valid(file@, orig, keys@) ==> r is Ok && r->Ok_0@ == orig,
{
    if file.len() < 2 {
        return Err(CodecError::InvalidFormat);
    }
    match validate_encoded_file(file[0]) {
        Ok(()) => {},
        Err(e) => {
            return Err(e);
        },
    }
    let n = file[1] as usize;
    if file.len() - 2 < n {
        return Err(CodecError::InvalidFormat);
    }
    let mut codecs: Vec<u8> = Vec::new();
    let mut c: usize = 0;
    while c < n
        invariant
            n <= file@.len() - 2,
            file@.len() >= 2,
            file@.len() <= usize::MAX,
            c <= n,
            codecs@ == file@.subrange(2, 2 + c as int),
        decreases n - c,
    {
        codecs.push(file[2 + c]);
        proof {
            assert(codecs@ =~= file@.subrange(2, 2 + c + 1));
        }
        c = c + 1;
    }
    proof {
        assert(codecs@ =~= spec_codecs_of(file@));
    }
    let mut v: usize = 0;
    while v < n
        invariant
            n == codecs@.len(),
            file@.len() >= 2 + n,
            file@[0] == 0,
            file@[1] as int == n,
            codecs@ == spec_codecs_of(file@),
            v <= n,
            forall|q: int| 0 <= q < v ==> spec_is_stage_id(#[trigger] codecs@[q]),
        decreases n - v,
    {
        let id = codecs[v];
        if !(id == 1 || id == 2 || id == 3 || id == 4) {
            proof {
                assert(!spec_is_stage_id(spec_codecs_of(file@)[v as int]));
            }
            return Err(CodecError::InvalidCodec);
        }
        v = v + 1;
    }
    let mut buffer: Vec<u8> = Vec::new();
    let fl = file.len();
    let mut p: usize = 2 + n;
    while p < fl
        invariant
            fl == file@.len(),
            2 + n <= p <= fl,
            buffer@ == file@.subrange(2 + n as int, p as int),
        decreases fl - p,
    {
        buffer.push(file[p]);
        proof {
            assert(buffer@ =~= file@.subrange(2 + n as int, p + 1));
        }
        p = p + 1;
    }
    proof {
        assert(buffer@ =~= file@.skip(2 + n as int));
        assert(codecs@.take(n as int) =~= codecs@);
    }
    let mut m: usize = n;
    while m > 0
        invariant
            n == codecs@.len(),
            codecs@ == spec_codecs_of(file@),
            file@.len() >= 2 + n,
            file@[0] == 0,
            file@[1] as int == n,
            m <= n,
            forall|q: int| 0 <= q < n ==> spec_is_stage_id(#[trigger] codecs@[q]),
            forall|j: int|
                m <= j < n && spec_stage_keyed(#[trigger] codecs@[j]) ==> spec_keyed_count(
                    codecs@.take(j),
                ) < keys@.len(),
            spec_last_stage_wrong_key(file@, keys@) ==> m == n && buffer@ == file@.skip(
                2 + n as int,
            ),
            forall|orig: Seq<u8>, keys_full: Seq<i128>|
                #[trigger] spec_container_valid(file@, orig, keys_full) && keys@
                    == keys_full.take(keys@.len() as int) && keys@.len() < spec_keyed_count(
                    codecs@,
                ) ==> (forall|j2: int| m <= j2 < n ==> !spec_stage_keyed(#[trigger] codecs@[j2]))
                    && spec_stages_valid(buffer@, orig, codecs@.take(m as int), keys_full),
            forall|orig: Seq<u8>|
                #[trigger] spec_container_valid(file@, orig, keys@) ==> spec_stages_valid(
                    buffer@,
                    orig,
                    codecs@.take(m as int),
                    keys@,
                ),
        decreases m,
    {
        let j = m - 1;
        let id = codecs[j];
        let kidx = count_keyed(&codecs, j);
        let key_opt: Option<&i128> = if id == 3 || id == 4 {
            if kidx < keys.len() {
                Some(&keys[kidx])
            } else {
                proof {
                    assert forall|orig: Seq<u8>|
                        !spec_container_valid(file@, orig, keys@) by {
                        if spec_container_valid(file@, orig, keys@) {
                            assert(codecs@.take(n as int) =~= codecs@);
                            assert(keys@.len() >= spec_keyed_count(codecs@));
                            lemma_keyed_count_step(codecs@, m as int);
                            lemma_keyed_count_mono(codecs@, m as int, n as int);
                            assert(spec_keyed_count(codecs@.take(m as int)) == kidx + 1);
                            assert(false);
                        }
                    }
                    if spec_last_stage_wrong_key(file@, keys@) {
                        assert(m == n);
                        assert(false);
                    }
                }
                return Err(CodecError::MissingKey);
            }
        } else {
            None
        };
        let ghost before = buffer@;
        match decode_stage(id, &buffer, key_opt) {
            Ok(out) => {
                buffer = out;
            },
            Err(e) => {
                proof {
                    assert forall|orig: Seq<u8>|
                        !spec_container_valid(file@, orig, keys@) by {
                        if spec_container_valid(file@, orig, keys@) {
                            let stages = codecs@.take(m as int);
                            assert(spec_stages_valid(before, orig, stages, keys@));
                            let mid = choose|mid: Seq<u8>|
                                spec_stages_valid(mid, orig, stages.drop_last(), keys@)
                                    && #[trigger] spec_stage_valid(
                                    stages.last(),
                                    before,
                                    mid,
                                    spec_stage_key(stages, keys@, stages.len() - 1),
                                );
                            assert(stages.last() == id);
                            assert(stages.take(j as int) =~= codecs@.take(j as int));
                            assert(spec_stage_key(stages, keys@, j as int) == view_key(key_opt));
                            assert(spec_stage_valid(id, before, mid, view_key(key_opt)));
                            assert(false);
                        }
                    }
                    if spec_last_stage_wrong_key(file@, keys@) {
                        // the first undone stage sees the mismatched fingerprint
                        assert(m == n);
                        assert(before == file@.skip(2 + n as int));
                        assert(kidx == spec_keyed_count(codecs@.take(j as int)));
                        assert(e == CodecError::PermissionDenied);
                    }
                    assert forall|orig: Seq<u8>, keys_full: Seq<i128>|
                        !(spec_container_valid(file@, orig, keys_full) && keys@
                            == keys_full.take(keys@.len() as int) && keys@.len()
                            < spec_keyed_count(codecs@)) by {
                        if spec_container_valid(file@, orig, keys_full) && keys@
                            == keys_full.take(keys@.len() as int) && keys@.len()
                            < spec_keyed_count(codecs@) {
                            let stages = codecs@.take(m as int);
                            assert(spec_stages_valid(before, orig, stages, keys_full));
                            let mid = choose|mid: Seq<u8>|
                                spec_stages_valid(mid, orig, stages.drop_last(), keys_full)
                                    && #[trigger] spec_stage_valid(
                                    stages.last(),
                                    before,
                                    mid,
                                    spec_stage_key(stages, keys_full, stages.len() - 1),
                                );
                            assert(stages.last() == id);
                            assert(stages.take(j as int) =~= codecs@.take(j as int));
                            if spec_stage_keyed(id) {
                                // its key index would already be out of range
                                assert(codecs@.take(n as int) =~= codecs@);
                                lemma_keyed_count_const(codecs@, m as int, n as int);
                                lemma_keyed_count_step(codecs@, m as int);
                                assert(kidx >= keys@.len());
                                assert(false);
                            } else {
                                assert(spec_stage_key(stages, keys_full, j as int) == view_key(
                                    key_opt,
                                ));
                                assert(spec_stage_valid(id, before, mid, view_key(key_opt)));
                                assert(false);
                            }
                        }
                    }
                }
                return Err(e);
            },
        }
        proof {
            assert forall|orig: Seq<u8>|
                #[trigger] spec_container_valid(file@, orig, keys@) implies spec_stages_valid(
                buffer@,
                orig,
                codecs@.take(j as int),
                keys@,
            ) by {
                let stages = codecs@.take(m as int);
                assert(spec_stages_valid(before, orig, stages, keys@));
                let mid = choose|mid: Seq<u8>|
                    spec_stages_valid(mid, orig, stages.drop_last(), keys@)
                        && #[trigger] spec_stage_valid(
                        stages.last(),
                        before,
                        mid,
                        spec_stage_key(stages, keys@, stages.len() - 1),
                    );
                assert(stages.last() == id);
                assert(stages.take(j as int) =~= codecs@.take(j as int));
                assert(spec_stage_key(stages, keys@, j as int) == view_key(key_opt));
                assert(spec_stage_valid(id, before, mid, view_key(key_opt)));
                assert(buffer@ == mid);
                assert(stages.drop_last() =~= codecs@.take(j as int));
            }
            if spec_last_stage_wrong_key(file@, keys@) {
                // the mismatched fingerprint would have stopped this stage
                assert(m == n);
                assert(before == file@.skip(2 + n as int));
                assert(kidx == spec_keyed_count(codecs@.take(j as int)));
                assert(false);
            }
            assert forall|orig: Seq<u8>, keys_full: Seq<i128>|
                #[trigger] spec_container_valid(file@, orig, keys_full) && keys@
                    == keys_full.take(keys@.len() as int) && keys@.len() < spec_keyed_count(
                    codecs@,
                ) implies (forall|j2: int| j <= j2 < n ==> !spec_stage_keyed(
                #[trigger] codecs@[j2])) && spec_stages_valid(
                buffer@,
                orig,
                codecs@.take(j as int),
                keys_full,
            ) by {
                if spec_stage_keyed(id) {
                    assert(codecs@.take(n as int) =~= codecs@);
                    lemma_keyed_count_const(codecs@, m as int, n as int);
                    lemma_keyed_count_step(codecs@, m as int);
                    assert(kidx >= keys@.len());
                    assert(false);
                }
                let stages = codecs@.take(m as int);
                assert(spec_stages_valid(before, orig, stages, keys_full));
                let mid = choose|mid: Seq<u8>|
                    spec_stages_valid(mid, orig, stages.drop_last(), keys_full)
                        && #[trigger] spec_stage_valid(
                        stages.last(),
                        before,
                        mid,
                        spec_stage_key(stages, keys_full, stages.len() - 1),
                    );
                assert(stages.last() == id);
                assert(stages.take(j as int) =~= codecs@.take(j as int));
                assert(spec_stage_key(stages, keys_full, j as int) == view_key(key_opt));
                assert(spec_stage_valid(id, before, mid, view_key(key_opt)));
                assert(buffer@ == mid);
                assert(stages.drop_last() =~= codecs@.take(j as int));
            }
        }
        m = j;
    }
    proof {
        assert forall|orig: Seq<u8>|
            #[trigger] spec_container_valid(file@, orig, keys@) implies buffer@ == orig by {
            assert(codecs@.take(0) =~= Seq::<u8>::empty());
            assert(spec_stages_valid(buffer@, orig, codecs@.take(0), keys@));
        }
        // every keyed stage found its key, so the key list was long enough
        if keys@.len() < spec_keyed_count(codecs@) {
            lemma_keyed_position(codecs@, keys@.len());
            let j = choose|j: int|
                0 <= j < codecs@.len() && spec_stage_keyed(#[trigger] codecs@[j])
                    && spec_keyed_count(codecs@.take(j)) == keys@.len();
            assert(false);
        }
        if spec_last_stage_wrong_key(file@, keys@) {
            assert(false);
        }
        assert forall|orig: Seq<u8>, keys_full: Seq<i128>|
            !(spec_container_valid(file@, orig, keys_full) && keys@ == keys_full.take(
                keys@.len() as int,
            ) && keys@.len() < spec_keyed_count(codecs@)) by {
            if spec_container_valid(file@, orig, keys_full) && keys@ == keys_full.take(
                keys@.len() as int,
            ) && keys@.len() < spec_keyed_count(codecs@) {
                assert(codecs@.take(n as int) =~= codecs@);
                lemma_keyed_count_const(codecs@, 0, n as int);
                assert(spec_keyed_count(codecs@.take(0)) == 0);
                assert(false);
            }
        }
    }
    Ok(buffer)
}

} // verus!
