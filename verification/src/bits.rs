//! Bit-level helpers: a byte stream seen as a bit stream (most significant
//! bit first), bit strings packed into bytes with zero fill at the low end of
//! the last byte, and 32-bit big-endian counts.

use vstd::prelude::*;
use vstd::assert_seqs_equal;

verus! {

/// Two to the power `n`.
pub open spec fn spec_pow2(n: nat) -> nat
    decreases n,
{
    if n == 0 {
        1
    } else {
        2 * spec_pow2((n - 1) as nat)
    }
}

proof fn lemma_pow2_small()
    ensures
        spec_pow2(0) == 1,
        spec_pow2(1) == 2,
        spec_pow2(2) == 4,
        spec_pow2(3) == 8,
        spec_pow2(4) == 16,
        spec_pow2(5) == 32,
        spec_pow2(6) == 64,
        spec_pow2(7) == 128,
        spec_pow2(8) == 256,
{
    assert(spec_pow2(0) == 1);
    assert(spec_pow2(1) == 2);
    assert(spec_pow2(2) == 4);
    assert(spec_pow2(3) == 8);
    assert(spec_pow2(4) == 16);
    assert(spec_pow2(5) == 32);
    assert(spec_pow2(6) == 64);
    assert(spec_pow2(7) == 128);
    assert(spec_pow2(8) == 256);
}

/// The eight bits of a byte, most significant first.
pub open spec fn spec_byte_bits(b: u8) -> Seq<bool> {
    Seq::new(8, |i: int| (b >> ((7 - i) as u8)) & 1 == 1)
}

/// The bit stream of a byte stream.
pub open spec fn spec_bits_of_bytes(s: Seq<u8>) -> Seq<bool>
    decreases s.len(),
{
    if s.len() == 0 {
        Seq::empty()
    } else {
        spec_byte_bits(s[0]) + spec_bits_of_bytes(s.drop_first())
    }
}

/// The value of a bit string read as a big-endian number.
pub open spec fn spec_bits_val(bs: Seq<bool>) -> nat
    decreases bs.len(),
{
    if bs.len() == 0 {
        0
    } else {
        2 * spec_bits_val(bs.drop_last()) + (if bs.last() {
            1nat
        } else {
            0nat
        })
    }
}

/// A bit string extended with zero bits to the next byte boundary.
pub open spec fn spec_zero_pad(bits: Seq<bool>) -> Seq<bool> {
    bits + Seq::new(((8 - bits.len() % 8) % 8) as nat, |i: int| false)
}

/// A bit string packed into bytes, most significant bit first, the last byte
/// zero-filled at its low end.
pub open spec fn spec_bytes_of_bits(bits: Seq<bool>) -> Seq<u8>
    decreases bits.len(),
{
    if bits.len() == 0 {
        Seq::empty()
    } else if bits.len() < 8 {
        seq![
            (spec_bits_val(bits + Seq::new((8 - bits.len()) as nat, |i: int| false)) as u8),
        ]
    } else {
        seq![(spec_bits_val(bits.take(8)) as u8)] + spec_bytes_of_bits(bits.skip(8))
    }
}

/// A bit string's value is below two to its length.
proof fn lemma_bits_val_bound(bs: Seq<bool>)
    ensures
        spec_bits_val(bs) < spec_pow2(bs.len()),
    decreases bs.len(),
{
    if bs.len() > 0 {
        lemma_bits_val_bound(bs.drop_last());
    }
}

/// Unpacking the byte a bit string of length eight was packed into gives the
/// bit string back.
proof fn lemma_byte_bits_of_val(bs: Seq<bool>)
    requires
        bs.len() == 8,
    ensures
        spec_bits_val(bs) < 256,
        spec_byte_bits(spec_bits_val(bs) as u8) == bs,
{
    lemma_bits_val_bound(bs);
    lemma_pow2_small();
    let x0: u8 = if bs[0] { 1 } else { 0 };
    let x1: u8 = if bs[1] { 1 } else { 0 };
    let x2: u8 = if bs[2] { 1 } else { 0 };
    let x3: u8 = if bs[3] { 1 } else { 0 };
    let x4: u8 = if bs[4] { 1 } else { 0 };
    let x5: u8 = if bs[5] { 1 } else { 0 };
    let x6: u8 = if bs[6] { 1 } else { 0 };
    let x7: u8 = if bs[7] { 1 } else { 0 };
    assert(bs.take(8) =~= bs);
    assert(bs.take(1).drop_last() =~= bs.take(0));
    assert(bs.take(2).drop_last() =~= bs.take(1));
    assert(bs.take(3).drop_last() =~= bs.take(2));
    assert(bs.take(4).drop_last() =~= bs.take(3));
    assert(bs.take(5).drop_last() =~= bs.take(4));
    assert(bs.take(6).drop_last() =~= bs.take(5));
    assert(bs.take(7).drop_last() =~= bs.take(6));
    assert(bs.take(8).drop_last() =~= bs.take(7));
    assert(spec_bits_val(bs.take(0)) == 0);
    assert(spec_bits_val(bs.take(1)) == x0);
    assert(spec_bits_val(bs.take(2)) == 2 * x0 + x1);
    assert(spec_bits_val(bs.take(3)) == 4 * x0 + 2 * x1 + x2);
    assert(spec_bits_val(bs.take(4)) == 8 * x0 + 4 * x1 + 2 * x2 + x3);
    assert(spec_bits_val(bs.take(5)) == 16 * x0 + 8 * x1 + 4 * x2 + 2 * x3 + x4);
    assert(spec_bits_val(bs.take(6)) == 32 * x0 + 16 * x1 + 8 * x2 + 4 * x3 + 2 * x4 + x5);
    assert(spec_bits_val(bs.take(7)) == 64 * x0 + 32 * x1 + 16 * x2 + 8 * x3 + 4 * x4 + 2 * x5
        + x6);
    assert(spec_bits_val(bs) == 128 * x0 + 64 * x1 + 32 * x2 + 16 * x3 + 8 * x4 + 4 * x5 + 2 * x6
        + x7);
    let v: u8 = spec_bits_val(bs) as u8;
    assert(v == 128 * x0 + 64 * x1 + 32 * x2 + 16 * x3 + 8 * x4 + 4 * x5 + 2 * x6 + x7);
    assert((v >> 7u8) & 1 == x0 && (v >> 6u8) & 1 == x1 && (v >> 5u8) & 1 == x2 && (v >> 4u8) & 1
        == x3 && (v >> 3u8) & 1 == x4 && (v >> 2u8) & 1 == x5 && (v >> 1u8) & 1 == x6 && (v
        >> 0u8) & 1 == x7) by (bit_vector)
        requires
            v == 128 * x0 + 64 * x1 + 32 * x2 + 16 * x3 + 8 * x4 + 4 * x5 + 2 * x6 + x7,
            x0 <= 1,
            x1 <= 1,
            x2 <= 1,
            x3 <= 1,
            x4 <= 1,
            x5 <= 1,
            x6 <= 1,
            x7 <= 1,
    ;
    assert_seqs_equal!(spec_byte_bits(v) == bs, i => {
        if i == 0 {
        } else if i == 1 {
        } else if i == 2 {
        } else if i == 3 {
        } else if i == 4 {
        } else if i == 5 {
        } else if i == 6 {
        } else {
            assert(i == 7);
        }
    });
}

/// The bit stream of one more byte is the bit stream so far followed by that
/// byte's bits.
proof fn lemma_bits_of_bytes_snoc(s: Seq<u8>, x: u8)
    ensures
        spec_bits_of_bytes(s.push(x)) == spec_bits_of_bytes(s) + spec_byte_bits(x),
    decreases s.len(),
{
    if s.len() == 0 {
        assert(s.push(x)[0] == x);
        assert(s.push(x).drop_first() =~= Seq::<u8>::empty());
        assert(spec_bits_of_bytes(Seq::<u8>::empty()) =~= Seq::<bool>::empty());
        assert(spec_bits_of_bytes(s.push(x)) == spec_byte_bits(x) + spec_bits_of_bytes(
            Seq::<u8>::empty(),
        ));
        assert(spec_bits_of_bytes(s.push(x)) =~= spec_bits_of_bytes(s) + spec_byte_bits(x));
    } else {
        assert(s.push(x).len() == s.len() + 1);
        assert(s.push(x)[0] == s[0]);
        assert(s.push(x).drop_first() =~= s.drop_first().push(x));
        lemma_bits_of_bytes_snoc(s.drop_first(), x);
        assert(spec_bits_of_bytes(s.push(x)) == spec_byte_bits(s[0]) + spec_bits_of_bytes(
            s.drop_first().push(x),
        ));
        assert(spec_bits_of_bytes(s.push(x)) =~= spec_bits_of_bytes(s) + spec_byte_bits(x));
    }
}

/// Packing splits at any byte boundary.
proof fn lemma_bytes_of_bits_split(bits: Seq<bool>, k: int)
    requires
        0 <= k <= bits.len(),
        k % 8 == 0,
    ensures
        spec_bytes_of_bits(bits) == spec_bytes_of_bits(bits.take(k)) + spec_bytes_of_bits(
            bits.skip(k),
        ),
    decreases k,
{
    if k == 0 {
        assert(bits.take(0) =~= Seq::<bool>::empty());
        assert(bits.skip(0) =~= bits);
        assert(spec_bytes_of_bits(bits) =~= spec_bytes_of_bits(bits.take(0)) + spec_bytes_of_bits(
            bits.skip(0),
        ));
    } else {
        assert(k >= 8);
        assert(bits.take(k).take(8) =~= bits.take(8));
        assert(bits.take(k).skip(8) =~= bits.skip(8).take(k - 8));
        assert(bits.skip(8).skip(k - 8) =~= bits.skip(k));
        lemma_bytes_of_bits_split(bits.skip(8), k - 8);
        assert(spec_bytes_of_bits(bits) =~= spec_bytes_of_bits(bits.take(k)) + spec_bytes_of_bits(
            bits.skip(k),
        ));
    }
}

/// A byte stream carries eight bits per byte.
pub proof fn lemma_bits_of_bytes_len(s: Seq<u8>)
    ensures
        spec_bits_of_bytes(s).len() == 8 * s.len(),
    decreases s.len(),
{
    if s.len() > 0 {
        lemma_bits_of_bytes_len(s.drop_first());
    }
}

/// Packing yields one byte for every eight bits, rounded up.
pub proof fn lemma_bytes_of_bits_len(bits: Seq<bool>)
    ensures
        spec_bytes_of_bits(bits).len() == (bits.len() + 7) / 8,
    decreases bits.len(),
{
    if bits.len() >= 8 {
        lemma_bytes_of_bits_len(bits.skip(8));
        assert((bits.len() - 8 + 7) / 8 + 1 == (bits.len() + 7) / 8) by (nonlinear_arith)
            requires
                bits.len() >= 8,
        ;
    }
}

/// Unpacking inverts packing: the bit stream of the packed bytes is the
/// original bit string followed by its zero fill.
pub proof fn lemma_bits_of_bytes_of_bits(bits: Seq<bool>)
    ensures
        spec_bits_of_bytes(spec_bytes_of_bits(bits)) == spec_zero_pad(bits),
    decreases bits.len(),
{
    if bits.len() == 0 {
        assert(spec_bits_of_bytes(spec_bytes_of_bits(bits)) =~= spec_zero_pad(bits));
    } else if bits.len() < 8 {
        let padded = bits + Seq::new((8 - bits.len()) as nat, |i: int| false);
        assert(padded.len() == 8);
        lemma_byte_bits_of_val(padded);
        let v = spec_bits_val(padded) as u8;
        assert(spec_bytes_of_bits(bits) == seq![v]);
        assert(seq![v][0] == v);
        assert(seq![v].drop_first() =~= Seq::<u8>::empty());
        assert(spec_bits_of_bytes(Seq::<u8>::empty()) =~= Seq::<bool>::empty());
        assert(spec_bits_of_bytes(seq![v]) == spec_byte_bits(v) + spec_bits_of_bytes(
            seq![v].drop_first(),
        ));
        assert(spec_bits_of_bytes(spec_bytes_of_bits(bits)) =~= padded);
        assert(spec_zero_pad(bits) =~= padded);
    } else {
        let head = bits.take(8);
        let tail = bits.skip(8);
        lemma_byte_bits_of_val(head);
        let v = spec_bits_val(head) as u8;
        lemma_bits_of_bytes_of_bits(tail);
        let packed = spec_bytes_of_bits(bits);
        assert(packed == seq![v] + spec_bytes_of_bits(tail));
        assert(packed[0] == v);
        assert(packed.drop_first() =~= spec_bytes_of_bits(tail));
        assert(packed.len() > 0);
        assert((bits.len() - 8) % 8 == bits.len() % 8) by (nonlinear_arith)
            requires
                bits.len() >= 8,
        ;
        assert(spec_bits_of_bytes(packed) =~= spec_zero_pad(bits));
    }
}

/// The bit stream of a byte stream, one byte at a time.
pub fn bits_from_bytes(bytes_list: &[u8]) -> (r: Vec<bool>)
    ensures
        r@ == spec_bits_of_bytes(bytes_list@),
{
    let mut bits: Vec<bool> = Vec::new();
    let n = bytes_list.len();
    let mut i: usize = 0;
    proof {
        assert(bytes_list@.take(0) =~= Seq::<u8>::empty());
        assert(spec_bits_of_bytes(bytes_list@.take(0)) =~= Seq::<bool>::empty());
    }
    while i < n
        invariant
            n == bytes_list@.len(),
            i <= n,
            bits@ == spec_bits_of_bytes(bytes_list@.take(i as int)),
        decreases n - i,
    {
        let byte = bytes_list[i];
        let ghost before = bits@;
        let mut j: usize = 0;
        while j < 8
            invariant
                j <= 8,
                bits@ == before + spec_byte_bits(byte).take(j as int),
            decreases 8 - j,
        {
            bits.push((byte >> ((7 - j) as u8)) & 1 == 1);
            proof {
                assert(spec_byte_bits(byte)[j as int] == ((byte >> ((7 - j) as u8)) & 1 == 1));
                assert(bits@ =~= before + spec_byte_bits(byte).take(j + 1));
            }
            j = j + 1;
        }
        proof {
            assert(spec_byte_bits(byte).take(8) =~= spec_byte_bits(byte));
            assert(bytes_list@.take(i + 1).drop_last() =~= bytes_list@.take(i as int));
            lemma_bits_of_bytes_snoc(bytes_list@.take(i as int), byte);
            assert(bytes_list@.take(i as int).push(byte) =~= bytes_list@.take(i + 1));
        }
        i = i + 1;
    }
    proof {
        assert(bytes_list@.take(n as int) =~= bytes_list@);
    }
    bits
}

/// A bit string packed into bytes, most significant bit first; a final
/// incomplete byte is zero-filled at its low end.
pub fn bytes_from_bits(bits_list: &[bool]) -> (r: Vec<u8>)
    ensures
        r@ == spec_bytes_of_bits(bits_list@),
{
    let mut bytes: Vec<u8> = Vec::new();
    let mut current_byte: u8 = 0;
    let mut bits_in_current_byte: usize = 0;
    let n = bits_list.len();
    let mut i: usize = 0;
    proof {
        lemma_pow2_small();
        assert(bits_list@.take(0) =~= Seq::<bool>::empty());
        assert(bits_list@.subrange(0, 0) =~= Seq::<bool>::empty());
        assert(spec_bytes_of_bits(bits_list@.take(0)) =~= Seq::<u8>::empty());
    }
    while i < n
        invariant
            n == bits_list@.len(),
            i <= n,
            bits_in_current_byte < 8,
            i == 8 * bytes@.len() + bits_in_current_byte,
            bytes@ == spec_bytes_of_bits(bits_list@.take(i - bits_in_current_byte)),
            current_byte == spec_bits_val(
                bits_list@.subrange(i - bits_in_current_byte, i as int),
            ),
            current_byte < spec_pow2(bits_in_current_byte as nat),
            spec_pow2(7) == 128,
            spec_pow2(8) == 256,
        decreases n - i,
    {
        let bit = bits_list[i];
        proof {
            lemma_pow2_small();
            let part = bits_list@.subrange(i - bits_in_current_byte, i as int);
            let part2 = bits_list@.subrange(i - bits_in_current_byte, i + 1);
            assert(part2.drop_last() =~= part);
            assert(part2.last() == bits_list@[i as int]);
        }
        current_byte = current_byte * 2 + (if bit {
            1
        } else {
            0
        });
        bits_in_current_byte = bits_in_current_byte + 1;
        i = i + 1;
        if bits_in_current_byte == 8 {
            proof {
                let start = i - 8;
                let chunk = bits_list@.subrange(start as int, i as int);
                assert(chunk.len() == 8);
                lemma_bytes_of_bits_split(bits_list@.take(i as int), start as int);
                assert(bits_list@.take(i as int).take(start as int) =~= bits_list@.take(
                    start as int,
                ));
                assert(bits_list@.take(i as int).skip(start as int) =~= chunk);
                assert(chunk.take(8) =~= chunk);
                assert(chunk.skip(8) =~= Seq::<bool>::empty());
                assert(spec_bytes_of_bits(Seq::<bool>::empty()) =~= Seq::<u8>::empty());
                assert(spec_bytes_of_bits(chunk) == seq![(spec_bits_val(chunk.take(8)) as u8)]
                    + spec_bytes_of_bits(chunk.skip(8)));
                assert(spec_bytes_of_bits(chunk) =~= seq![(spec_bits_val(chunk) as u8)]);
                assert(bytes@.push(current_byte) =~= spec_bytes_of_bits(bits_list@.take(i as int)));
            }
            bytes.push(current_byte);
            current_byte = 0;
            bits_in_current_byte = 0;
            proof {
                assert(bits_list@.subrange(i as int, i as int) =~= Seq::<bool>::empty());
            }
        }
    }
    if bits_in_current_byte > 0 {
        let ghost part = bits_list@.subrange(n - bits_in_current_byte, n as int);
        let pad = 8 - bits_in_current_byte;
        let mut t: usize = 0;
        while t < pad
            invariant
                pad == 8 - part.len(),
                1 <= part.len() < 8,
                t <= pad,
                current_byte == spec_bits_val(part + Seq::new(t as nat, |q: int| false)),
                current_byte < spec_pow2((part.len() + t) as nat),
                spec_pow2(7) == 128,
                spec_pow2(8) == 256,
            decreases pad - t,
        {
            proof {
                lemma_pow2_small();
                let padded_t = part + Seq::new(t as nat, |q: int| false);
                let padded_t1 = part + Seq::new((t + 1) as nat, |q: int| false);
                assert(padded_t1.drop_last() =~= padded_t);
                assert(padded_t1.last() == false);
                lemma_bits_val_bound(padded_t1);
            }
            current_byte = current_byte * 2;
            t = t + 1;
        }
        proof {
            let start = n - bits_in_current_byte;
            lemma_bytes_of_bits_split(bits_list@, start as int);
            assert(bits_list@.skip(start as int) =~= part);
            assert(part + Seq::new((8 - part.len()) as nat, |q: int| false) =~= part + Seq::new(
                pad as nat,
                |q: int| false,
            ));
            assert(spec_bytes_of_bits(part) == seq![
                (spec_bits_val(part + Seq::new((8 - part.len()) as nat, |q: int| false)) as u8),
            ]);
            assert(bits_list@.take(start as int) =~= bits_list@.take(n - bits_in_current_byte));
            assert(bytes@.push(current_byte) =~= spec_bytes_of_bits(bits_list@));
        }
        bytes.push(current_byte);
    } else {
        proof {
            assert(bits_list@.take(n as int) =~= bits_list@);
        }
    }
    bytes
}

/// The four big-endian bytes of a 32-bit count.
pub open spec fn spec_be32(n: u32) -> Seq<u8> {
    seq![
        ((n / 0x1000000) % 256) as u8,
        ((n / 0x10000) % 256) as u8,
        ((n / 0x100) % 256) as u8,
        (n % 256) as u8,
    ]
}

/// The 32-bit count read from four big-endian bytes.
pub open spec fn spec_u32_of_be(b0: u8, b1: u8, b2: u8, b3: u8) -> u32 {
    ((b0 as int) * 0x1000000 + (b1 as int) * 0x10000 + (b2 as int) * 0x100 + (b3 as int)) as u32
}

/// Reading four big-endian bytes back gives the count they were written from.
pub proof fn lemma_be32_round_trip(n: u32)
    ensures
        spec_u32_of_be(
            ((n / 0x1000000) % 256) as u8,
            ((n / 0x10000) % 256) as u8,
            ((n / 0x100) % 256) as u8,
            (n % 256) as u8,
        ) == n,
{
    assert(((n / 0x1000000) % 256) * 0x1000000 + ((n / 0x10000) % 256) * 0x10000 + ((n / 0x100)
        % 256) * 0x100 + (n % 256) == n) by (bit_vector);
}

} // verus!
