//! Run-length encoding: a left-to-right scan collects maximal runs of equal
//! bytes; each run is serialized as one value byte followed by a 32-bit
//! big-endian count. Runs longer than the largest 32-bit count are split.

use vstd::prelude::*;
use vstd::assert_seqs_equal;
use crate::codec::{CodecError, CodecFunctions, view_key};
use crate::bits::{spec_be32, spec_u32_of_be, lemma_be32_round_trip};

verus! {

/// How many copies of its first byte stand at the front of `s`.
pub open spec fn spec_leading(s: Seq<u8>) -> nat
    decreases s.len(),
{
    if s.len() == 0 {
        0
    } else if s.len() == 1 {
        1
    } else if s[1] == s[0] {
        (1 + spec_leading(s.drop_first())) as nat
    } else {
        1
    }
}

/// The run list of a buffer: maximal stretches of one byte, each capped at
/// the largest 32-bit count so that no count wraps.
pub open spec fn spec_runs(s: Seq<u8>) -> Seq<(u8, u32)>
    decreases s.len(),
    via spec_runs_decreases
{
    if s.len() == 0 {
        Seq::empty()
    } else {
        let n: nat = if spec_leading(s) > 0xFFFF_FFFF {
            0xFFFF_FFFF as nat
        } else {
            spec_leading(s)
        };
        seq![(s[0], n as u32)] + spec_runs(s.skip(n as int))
    }
}

#[via_fn]
proof fn spec_runs_decreases(s: Seq<u8>) {
    if s.len() > 0 {
        lemma_leading_bounds(s);
    }
}

/// A run list written out as 5-byte records.
pub open spec fn spec_serialize_runs(runs: Seq<(u8, u32)>) -> Seq<u8>
    decreases runs.len(),
{
    if runs.len() == 0 {
        Seq::empty()
    } else {
        seq![runs[0].0] + spec_be32(runs[0].1) + spec_serialize_runs(runs.drop_first())
    }
}

/// The run list read back from 5-byte records; trailing bytes that do not
/// fill a record are discarded.
pub open spec fn spec_parse_runs(data: Seq<u8>) -> Seq<(u8, u32)>
    decreases data.len(),
{
    if data.len() < 5 {
        Seq::empty()
    } else {
        seq![(data[0], spec_u32_of_be(data[1], data[2], data[3], data[4]))]
            + spec_parse_runs(data.skip(5))
    }
}

/// A run list expanded back into the bytes it stands for.
pub open spec fn spec_expand_runs(runs: Seq<(u8, u32)>) -> Seq<u8>
    decreases runs.len(),
{
    if runs.len() == 0 {
        Seq::empty()
    } else {
        Seq::new(runs[0].1 as nat, |i: int| runs[0].0) + spec_expand_runs(runs.drop_first())
    }
}

/// The first `spec_leading(s)` bytes of `s` equal its first byte, and the
/// stretch is maximal.
proof fn lemma_leading_bounds(s: Seq<u8>)
    requires
        s.len() > 0,
    ensures
        1 <= spec_leading(s) <= s.len(),
        forall|k: int| 0 <= k < spec_leading(s) ==> #[trigger] s[k] == s[0],
        spec_leading(s) < s.len() ==> s[spec_leading(s) as int] != s[0],
    decreases s.len(),
{
    if s.len() > 1 && s[1] == s[0] {
        lemma_leading_bounds(s.drop_first());
        assert(forall|k: int| 1 <= k < spec_leading(s) ==> s[k] == s.drop_first()[k - 1]);
    }
}

/// A stretch of equal bytes at the front of `s` is no longer than the leading run.
proof fn lemma_leading_at_least(s: Seq<u8>, n: nat)
    requires
        n <= s.len(),
        forall|k: int| 0 <= k < n ==> #[trigger] s[k] == s[0],
    ensures
        n <= spec_leading(s),
    decreases s.len(),
{
    if n > 1 {
        assert(s[1] == s[0]);
        assert(forall|k: int| 0 <= k < n - 1 ==> s.drop_first()[k] == s[k + 1]);
        lemma_leading_at_least(s.drop_first(), (n - 1) as nat);
    }
}

/// Parsing inverts serialization: the 5-byte records written for a run list
/// read back as exactly that run list.
pub proof fn lemma_rle_parse_serialize(runs: Seq<(u8, u32)>)
    ensures
        spec_parse_runs(spec_serialize_runs(runs)) == runs,
    decreases runs.len(),
{
    if runs.len() > 0 {
        let ser = spec_serialize_runs(runs);
        let rest = spec_serialize_runs(runs.drop_first());
        lemma_be32_round_trip(runs[0].1);
        assert_seqs_equal!(ser.skip(5) == rest);
        lemma_rle_parse_serialize(runs.drop_first());
        assert_seqs_equal!(spec_parse_runs(ser) == runs);
    }
}

/// Expansion inverts run collection: expanding the run list of a buffer
/// gives the buffer back.
pub proof fn lemma_rle_expand_runs(s: Seq<u8>)
    ensures
        spec_expand_runs(spec_runs(s)) == s,
    decreases s.len(),
{
    if s.len() > 0 {
        lemma_leading_bounds(s);
        let n: nat = if spec_leading(s) > 0xFFFF_FFFF {
            0xFFFF_FFFF as nat
        } else {
            spec_leading(s)
        };
        let runs = spec_runs(s);
        assert(runs.drop_first() =~= spec_runs(s.skip(n as int)));
        lemma_rle_expand_runs(s.skip(n as int));
        assert_seqs_equal!(spec_expand_runs(spec_runs(s)) == s, k => {
            if k < n {
                assert(s[k] == s[0]);
            } else {
                assert(spec_expand_runs(spec_runs(s))[k] == s.skip(n as int)[k - n]);
            }
        });
    }
}

/// A buffer of one repeated byte, up to the largest 32-bit count, serializes
/// to exactly one 5-byte record.
pub proof fn lemma_rle_single_run(s: Seq<u8>)
    requires
        1 <= s.len() <= 0xFFFF_FFFF,
        forall|k: int| 0 <= k < s.len() ==> #[trigger] s[k] == s[0],
    ensures
        spec_serialize_runs(spec_runs(s)).len() == 5,
{
    lemma_leading_bounds(s);
    lemma_leading_at_least(s, s.len());
    assert(spec_leading(s) == s.len());
    assert(spec_runs(s.skip(s.len() as int)) =~= Seq::<(u8, u32)>::empty());
    assert(spec_runs(s) =~= seq![(s[0], s.len() as u32)]);
    assert(spec_serialize_runs(seq![(s[0], s.len() as u32)].drop_first()) =~= Seq::<u8>::empty());
}

/// A stateless run-length transformer; its run list is rebuilt per call.
pub struct RLEEncoder {
    dictionary: Vec<(u8, u32)>,
}

impl RLEEncoder {
    /// The run list this encoder holds.
    pub closed spec fn runs(self) -> Seq<(u8, u32)> {
        self.dictionary@
    }

    /// An encoder with no runs.
    pub fn new() -> (r: Self)
        ensures
            r.runs() == Seq::<(u8, u32)>::empty(),
    {
        RLEEncoder { dictionary: Vec::new() }
    }

    /// Collects the run list of a buffer by a left-to-right scan.
    pub fn new_from_buffer(buffer: &[u8]) -> (r: Self)
        ensures
            r.runs() == spec_runs(buffer@),
    {
        let mut list: Vec<(u8, u32)> = Vec::new();
        let len = buffer.len();
        let mut i: usize = 0;
        proof {
            assert(buffer@.skip(0) =~= buffer@);
        }
        while i < len
            invariant
                len == buffer@.len(),
                i <= len,
                spec_runs(buffer@) == list@ + spec_runs(buffer@.skip(i as int)),
            decreases len - i,
        {
            let working_byte: u8 = buffer[i];
            let mut counter: u32 = 1;
            let mut j: usize = i + 1;
            while j < len && counter < 0xFFFF_FFFF && buffer[j] == working_byte
                invariant
                    len == buffer@.len(),
                    i < len,
                    i < j <= len,
                    working_byte == buffer@[i as int],
                    counter == j - i,
                    counter <= 0xFFFF_FFFF,
                    forall|k: int| i <= k < j ==> buffer@[k] == working_byte,
                decreases len - j,
            {
                counter = counter + 1;
                j = j + 1;
            }
            proof {
                let tail = buffer@.skip(i as int);
                assert(tail.len() == len - i);
                assert(forall|k: int| 0 <= k < counter ==> tail[k] == working_byte);
                lemma_leading_at_least(tail, counter as nat);
                lemma_leading_bounds(tail);
                if counter < 0xFFFF_FFFF {
                    assert(j == len || buffer@[j as int] != working_byte);
                    if (j as int) < len {
                        assert(tail[j - i] != tail[0]);
                    }
                    assert(spec_leading(tail) == counter);
                } else {
                    assert(spec_leading(tail) >= 0xFFFF_FFFF);
                }
                assert(spec_runs(tail) == seq![(working_byte, counter)] + spec_runs(
                    tail.skip(counter as int),
                ));
                assert_seqs_equal!(tail.skip(counter as int) == buffer@.skip(j as int));
            }
            list.push((working_byte, counter));
            proof {
                assert(list@ + spec_runs(buffer@.skip(j as int)) =~= spec_runs(buffer@));
            }
            i = j;
        }
        proof {
            assert(spec_runs(buffer@.skip(i as int)) =~= Seq::empty());
            assert(list@ =~= spec_runs(buffer@));
        }
        RLEEncoder { dictionary: list }
    }

    /// Expands the run list back into the bytes it stands for.
    fn expand_rle(&self) -> (r: Vec<u8>)
        ensures
            r@ == spec_expand_runs(self.runs()),
    {
        let mut result: Vec<u8> = Vec::new();
        let n = self.dictionary.len();
        let mut i: usize = 0;
        proof {
            assert(self.dictionary@.skip(0) =~= self.dictionary@);
        }
        while i < n
            invariant
                n == self.dictionary@.len(),
                i <= n,
                spec_expand_runs(self.dictionary@) == result@ + spec_expand_runs(
                    self.dictionary@.skip(i as int),
                ),
            decreases n - i,
        {
            let (byte, count) = self.dictionary[i];
            let mut c: u32 = 0;
            let ghost before = result@;
            while c < count
                invariant
                    c <= count,
                    result@ == before + Seq::new(c as nat, |k: int| byte),
                decreases count - c,
            {
                result.push(byte);
                proof {
                    assert(result@ =~= before + Seq::new((c + 1) as nat, |k: int| byte));
                }
                c = c + 1;
            }
            proof {
                let tail = self.dictionary@.skip(i as int);
                assert(tail[0] == self.dictionary@[i as int]);
                assert(spec_expand_runs(tail) == Seq::new(count as nat, |k: int| byte)
                    + spec_expand_runs(tail.drop_first()));
                assert_seqs_equal!(tail.drop_first() == self.dictionary@.skip(i + 1));
            }
            i = i + 1;
        }
        proof {
            assert(spec_expand_runs(self.dictionary@.skip(i as int)) =~= Seq::empty());
            assert(result@ =~= spec_expand_runs(self.dictionary@));
        }
        result
    }

    /// Writes the run list out as 5-byte records.
    fn serialize_rle(&self) -> (r: Vec<u8>)
        ensures
            r@ == spec_serialize_runs(self.runs()),
    {
        let mut out: Vec<u8> = Vec::new();
        let n = self.dictionary.len();
        let mut i: usize = 0;
        proof {
            assert(self.dictionary@.skip(0) =~= self.dictionary@);
        }
        while i < n
            invariant
                n == self.dictionary@.len(),
                i <= n,
                spec_serialize_runs(self.dictionary@) == out@ + spec_serialize_runs(
                    self.dictionary@.skip(i as int),
                ),
            decreases n - i,
        {
            let (byte, count) = self.dictionary[i];
            let ghost before = out@;
            out.push(byte);
            out.push((count / 0x1000000) as u8);
            out.push(((count / 0x10000) % 256) as u8);
            out.push(((count / 0x100) % 256) as u8);
            out.push((count % 256) as u8);
            proof {
                assert(count / 0x1000000 < 256);
                let tail = self.dictionary@.skip(i as int);
                assert(tail[0] == self.dictionary@[i as int]);
                assert(spec_serialize_runs(tail) == seq![byte] + spec_be32(count)
                    + spec_serialize_runs(tail.drop_first()));
                assert_seqs_equal!(tail.drop_first() == self.dictionary@.skip(i + 1));
                assert(out@ =~= before + (seq![byte] + spec_be32(count)));
            }
            i = i + 1;
        }
        proof {
            assert(spec_serialize_runs(self.dictionary@.skip(i as int)) =~= Seq::empty());
            assert(out@ =~= spec_serialize_runs(self.dictionary@));
        }
        out
    }

    /// Reads 5-byte records back into a run list, discarding trailing bytes
    /// that do not fill a record.
    fn deserialize_rle(&mut self, data: &[u8])
        ensures
            final(self).runs() == spec_parse_runs(data@),
    {
        self.dictionary.clear();
        let len = data.len();
        let mut i: usize = 0;
        proof {
            assert(data@.skip(0) =~= data@);
        }
        while len >= 5 && i <= len - 5
            invariant
                len == data@.len(),
                i <= len,
                spec_parse_runs(data@) == self.dictionary@ + spec_parse_runs(data@.skip(i as int)),
            decreases len - i,
        {
            let byte = data[i];
            let count: u32 = (data[i + 1] as u32) * 0x1000000 + (data[i + 2] as u32) * 0x10000 + (
            data[i + 3] as u32) * 0x100 + (data[i + 4] as u32);
            proof {
                let tail = data@.skip(i as int);
                assert(tail.len() >= 5);
                assert(tail[0] == data@[i as int]);
                assert(tail[1] == data@[i + 1]);
                assert(tail[2] == data@[i + 2]);
                assert(tail[3] == data@[i + 3]);
                assert(tail[4] == data@[i + 4]);
                assert(spec_parse_runs(tail) == seq![(byte, count)] + spec_parse_runs(
                    tail.skip(5),
                ));
                assert_seqs_equal!(tail.skip(5) == data@.skip(i + 5));
            }
            self.dictionary.push((byte, count));
            proof {
                assert(self.dictionary@ + spec_parse_runs(data@.skip(i + 5)) =~= spec_parse_runs(
                    data@,
                ));
            }
            i = i + 5;
        }
        proof {
            assert(data@.skip(i as int).len() < 5);
            assert(self.dictionary@ =~= spec_parse_runs(data@));
        }
    }
}

impl CodecFunctions for RLEEncoder {
    open spec fn spec_keyed() -> bool {
        false
    }

    open spec fn spec_valid_encoding(enc: Seq<u8>, orig: Seq<u8>, key: Option<i128>) -> bool {
        enc == spec_serialize_runs(spec_runs(orig))
    }

    open spec fn spec_encode_err(data: Seq<u8>, key: Option<i128>) -> Option<CodecError> {
        None
    }

    open spec fn spec_decode_err(enc: Seq<u8>, key: Option<i128>) -> Option<CodecError> {
        None
    }

    fn encode(data: &Vec<u8>, key: Option<&i128>) -> (r: Result<Vec<u8>, CodecError>) {
        let rle = RLEEncoder::new_from_buffer(data.as_slice());
        Ok(rle.serialize_rle())
    }

    fn decode(encoded_data: &Vec<u8>, key: Option<&i128>) -> (r: Result<Vec<u8>, CodecError>)
        ensures
            r is Ok && r->Ok_0@ == spec_expand_runs(spec_parse_runs(encoded_data@)),
    {
        let mut rle = RLEEncoder::new();
        rle.deserialize_rle(encoded_data.as_slice());
        let expanded = rle.expand_rle();
        proof {
            assert forall|orig: Seq<u8>|
                Self::spec_valid_encoding(encoded_data@, orig, view_key(key)) implies expanded@
                == orig by {
                lemma_rle_parse_serialize(spec_runs(orig));
                lemma_rle_expand_runs(orig);
            }
        }
        Ok(expanded)
    }
}

} // verus!
