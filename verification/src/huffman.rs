//! Huffman coding: a frequency count over the input, a tree built by
//! repeatedly combining the two lowest-frequency nodes, a prefix-free code
//! table read off the tree, and a header that ships the table together with
//! the original length and the packed bit stream.

use vstd::prelude::*;
use vstd::assert_seqs_equal;
use crate::codec::{CodecError, CodecFunctions, view_key};
use crate::bits::{
    spec_bits_of_bytes, spec_bytes_of_bits, spec_be32, spec_u32_of_be, spec_zero_pad,
    lemma_bits_of_bytes_of_bits, lemma_bytes_of_bits_len, lemma_be32_round_trip, bits_from_bytes,
    bytes_from_bits,
};

verus! {

// ---------------------------------------------------------------------------
// Code tables
// ---------------------------------------------------------------------------
/// `a` is an initial segment of `b` (every sequence is a prefix of itself).
pub open spec fn spec_is_prefix(a: Seq<bool>, b: Seq<bool>) -> bool {
    a.len() <= b.len() && a == b.take(a.len() as int)
}

/// A usable code table: at most one entry per byte value, every code between
/// 1 and 255 bits, and no code a prefix of another.
pub open spec fn spec_wf_table(t: Seq<(u8, Seq<bool>)>) -> bool {
    &&& t.len() <= 256
    &&& forall|i: int| 0 <= i < t.len() ==> 1 <= (#[trigger] t[i]).1.len() <= 255
    &&& forall|i: int, j: int|
        0 <= i < t.len() && 0 <= j < t.len() && i != j ==> (#[trigger] t[i]).0 != (
        #[trigger] t[j]).0
    &&& forall|i: int, j: int|
        0 <= i < t.len() && 0 <= j < t.len() && i != j ==> !spec_is_prefix(
            (#[trigger] t[i]).1,
            (#[trigger] t[j]).1,
        )
}

/// The code the table assigns to a byte: the first matching entry.
pub open spec fn spec_table_code(t: Seq<(u8, Seq<bool>)>, b: u8) -> Option<Seq<bool>>
    decreases t.len(),
{
    if t.len() == 0 {
        None
    } else if t[0].0 == b {
        Some(t[0].1)
    } else {
        spec_table_code(t.drop_first(), b)
    }
}

/// The byte the table assigns to a code: the first matching entry.
pub open spec fn spec_table_byte(t: Seq<(u8, Seq<bool>)>, c: Seq<bool>) -> Option<u8>
    decreases t.len(),
{
    if t.len() == 0 {
        None
    } else if t[0].1 == c {
        Some(t[0].0)
    } else {
        spec_table_byte(t.drop_first(), c)
    }
}

/// The code of a byte, or the empty bit string where the table has none.
pub open spec fn spec_code_of(t: Seq<(u8, Seq<bool>)>, b: u8) -> Seq<bool> {
    match spec_table_code(t, b) {
        Some(c) => c,
        None => Seq::empty(),
    }
}

/// Every byte of `s` has a code in the table.
pub open spec fn spec_covers(t: Seq<(u8, Seq<bool>)>, s: Seq<u8>) -> bool {
    forall|i: int| 0 <= i < s.len() ==> spec_table_code(t, #[trigger] s[i]) is Some
}

/// The codes of the bytes of `s`, concatenated.
pub open spec fn spec_concat_codes(t: Seq<(u8, Seq<bool>)>, s: Seq<u8>) -> Seq<bool>
    decreases s.len(),
{
    if s.len() == 0 {
        Seq::empty()
    } else {
        spec_code_of(t, s[0]) + spec_concat_codes(t, s.drop_first())
    }
}

/// The mathematical table held by an executable table: each entry's code as
/// a bit sequence.
pub open spec fn spec_table_view(t: Seq<(u8, Vec<bool>)>) -> Seq<(u8, Seq<bool>)> {
    Seq::new(t.len(), |i: int| (t[i].0, t[i].1@))
}

/// Where the lookup finds a code there is a matching entry, and where it
/// finds none no entry matches.
proof fn lemma_table_code_index(t: Seq<(u8, Seq<bool>)>, b: u8)
    ensures
        match spec_table_code(t, b) {
            Some(c) => exists|i: int|
                0 <= i < t.len() && (#[trigger] t[i]).0 == b && t[i].1 == c,
            None => forall|i: int| 0 <= i < t.len() ==> (#[trigger] t[i]).0 != b,
        },
    decreases t.len(),
{
    if t.len() > 0 {
        if t[0].0 == b {
            assert(t[0].0 == b && t[0].1 == t[0].1);
        } else {
            lemma_table_code_index(t.drop_first(), b);
            let rest = t.drop_first();
            match spec_table_code(t, b) {
                Some(c) => {
                    let i = choose|i: int|
                        0 <= i < rest.len() && (#[trigger] rest[i]).0 == b && rest[i].1 == c;
                    assert(t[i + 1].0 == b && t[i + 1].1 == c);
                },
                None => {
                    assert forall|i: int| 0 <= i < t.len() implies (#[trigger] t[i]).0 != b by {
                        if i > 0 {
                            assert(t[i] == rest[i - 1]);
                        }
                    }
                },
            }
        }
    }
}

/// The same, for lookup by code.
proof fn lemma_table_byte_index(t: Seq<(u8, Seq<bool>)>, c: Seq<bool>)
    ensures
        match spec_table_byte(t, c) {
            Some(b) => exists|i: int|
                0 <= i < t.len() && (#[trigger] t[i]).1 == c && t[i].0 == b,
            None => forall|i: int| 0 <= i < t.len() ==> (#[trigger] t[i]).1 != c,
        },
    decreases t.len(),
{
    if t.len() > 0 {
        if t[0].1 == c {
            assert(t[0].1 == c && t[0].0 == t[0].0);
        } else {
            lemma_table_byte_index(t.drop_first(), c);
            let rest = t.drop_first();
            match spec_table_byte(t, c) {
                Some(b) => {
                    let i = choose|i: int|
                        0 <= i < rest.len() && (#[trigger] rest[i]).1 == c && rest[i].0 == b;
                    assert(t[i + 1].1 == c && t[i + 1].0 == b);
                },
                None => {
                    assert forall|i: int| 0 <= i < t.len() implies (#[trigger] t[i]).1 != c by {
                        if i > 0 {
                            assert(t[i] == rest[i - 1]);
                        }
                    }
                },
            }
        }
    }
}

/// A byte that stands in some entry has a code.
proof fn lemma_table_code_exists(t: Seq<(u8, Seq<bool>)>, b: u8)
    requires
        exists|i: int| 0 <= i < t.len() && (#[trigger] t[i]).0 == b,
    ensures
        spec_table_code(t, b) is Some,
{
    lemma_table_code_index(t, b);
}

/// In a well-formed table no strict prefix of a code is itself a code.
proof fn lemma_no_proper_prefix_is_code(t: Seq<(u8, Seq<bool>)>, j: int, c: Seq<bool>)
    requires
        spec_wf_table(t),
        0 <= j < t.len(),
        spec_is_prefix(c, t[j].1),
        c.len() < t[j].1.len(),
    ensures
        spec_table_byte(t, c) is None,
{
    lemma_table_byte_index(t, c);
    if spec_table_byte(t, c) is Some {
        let b = spec_table_byte(t, c)->Some_0;
        let i = choose|i: int| 0 <= i < t.len() && (#[trigger] t[i]).1 == c && t[i].0 == b;
        assert(i != j);
        assert(spec_is_prefix(t[i].1, t[j].1));
        assert(false);
    }
}

/// In a well-formed table, looking a byte's code back up yields that byte.
proof fn lemma_code_round_trip(t: Seq<(u8, Seq<bool>)>, b: u8)
    requires
        spec_wf_table(t),
        spec_table_code(t, b) is Some,
    ensures
        spec_table_byte(t, spec_code_of(t, b)) == Some(b),
{
    let c = spec_code_of(t, b);
    lemma_table_code_index(t, b);
    let j = choose|j: int| 0 <= j < t.len() && (#[trigger] t[j]).0 == b && t[j].1 == c;
    lemma_table_byte_index(t, c);
    match spec_table_byte(t, c) {
        None => {
            assert(t[j].1 != c);
            assert(false);
        },
        Some(b2) => {
            let i = choose|i: int| 0 <= i < t.len() && (#[trigger] t[i]).1 == c && t[i].0 == b2;
            if i != j {
                assert(c.take(c.len() as int) =~= c);
                assert(spec_is_prefix(t[i].1, t[j].1));
                assert(false);
            }
        },
    }
}

/// One more byte appends that byte's code to the concatenation.
proof fn lemma_concat_codes_snoc(t: Seq<(u8, Seq<bool>)>, s: Seq<u8>, x: u8)
    ensures
        spec_concat_codes(t, s.push(x)) == spec_concat_codes(t, s) + spec_code_of(t, x),
    decreases s.len(),
{
    if s.len() == 0 {
        assert(s.push(x)[0] == x);
        assert(s.push(x).drop_first() =~= Seq::<u8>::empty());
        assert(spec_concat_codes(t, Seq::<u8>::empty()) == Seq::<bool>::empty());
        assert(spec_concat_codes(t, s.push(x)) =~= spec_concat_codes(t, s) + spec_code_of(t, x));
    } else {
        assert(s.push(x)[0] == s[0]);
        assert(s.push(x).drop_first() =~= s.drop_first().push(x));
        lemma_concat_codes_snoc(t, s.drop_first(), x);
        assert(spec_concat_codes(t, s.push(x)) =~= spec_concat_codes(t, s) + spec_code_of(t, x));
    }
}

/// The concatenation splits at any byte position.
proof fn lemma_concat_codes_split(t: Seq<(u8, Seq<bool>)>, s: Seq<u8>, m: int)
    requires
        0 <= m <= s.len(),
    ensures
        spec_concat_codes(t, s) == spec_concat_codes(t, s.take(m)) + spec_concat_codes(
            t,
            s.skip(m),
        ),
    decreases s.len() - m,
{
    if m == s.len() {
        assert(s.take(m) =~= s);
        assert(s.skip(m) =~= Seq::<u8>::empty());
        assert(spec_concat_codes(t, s) =~= spec_concat_codes(t, s.take(m)) + spec_concat_codes(
            t,
            s.skip(m),
        ));
    } else {
        lemma_concat_codes_split(t, s, m + 1);
        assert(s.take(m + 1) =~= s.take(m).push(s[m]));
        lemma_concat_codes_snoc(t, s.take(m), s[m]);
        let tail = s.skip(m);
        assert(tail[0] == s[m]);
        assert(tail.drop_first() =~= s.skip(m + 1));
        assert(spec_concat_codes(t, s.skip(m)) == spec_code_of(t, s[m]) + spec_concat_codes(
            t,
            s.skip(m + 1),
        ));
        assert(spec_concat_codes(t, s) =~= spec_concat_codes(t, s.take(m)) + spec_concat_codes(
            t,
            s.skip(m),
        ));
    }
}

// ---------------------------------------------------------------------------
// The tree
// ---------------------------------------------------------------------------
/// A node of the Huffman tree: a leaf for one byte value, or an internal node
/// combining two subtrees.
pub enum HuffmanNode {
    Leaf { byte: u8, freq: u64 },
    Internal { internal_freq: u64, left: Box<HuffmanNode>, right: Box<HuffmanNode> },
}

/// The bytes at the leaves, in tree order.
pub open spec fn spec_leaves(n: HuffmanNode) -> Seq<u8>
    decreases n,
{
    match n {
        HuffmanNode::Leaf { byte, .. } => seq![byte],
        HuffmanNode::Internal { left, right, .. } => spec_leaves(*left) + spec_leaves(*right),
    }
}

/// The frequency recorded at a node.
pub open spec fn spec_node_freq(n: HuffmanNode) -> u64 {
    match n {
        HuffmanNode::Leaf { freq, .. } => freq,
        HuffmanNode::Internal { internal_freq, .. } => internal_freq,
    }
}

/// No byte stands at two leaves: the two subtrees of every internal node
/// carry disjoint byte sets.
pub open spec fn spec_wf_node(n: HuffmanNode) -> bool
    decreases n,
{
    match n {
        HuffmanNode::Leaf { .. } => true,
        HuffmanNode::Internal { left, right, .. } => {
            &&& spec_wf_node(*left)
            &&& spec_wf_node(*right)
            &&& forall|k1: int, k2: int|
                0 <= k1 < spec_leaves(*left).len() && 0 <= k2 < spec_leaves(*right).len()
                    ==> #[trigger] spec_leaves(*left)[k1] != #[trigger] spec_leaves(*right)[k2]
        },
    }
}

/// The byte stands at some leaf of the node.
pub open spec fn spec_node_has(n: HuffmanNode, b: u8) -> bool {
    exists|k: int| 0 <= k < spec_leaves(n).len() && spec_leaves(n)[k] == b
}

/// The code table read off a tree by depth-first search: left descent adds a
/// zero bit, right descent a one bit.
pub open spec fn spec_entries(n: HuffmanNode, pre: Seq<bool>) -> Seq<(u8, Seq<bool>)>
    decreases n,
{
    match n {
        HuffmanNode::Leaf { byte, .. } => seq![(byte, pre)],
        HuffmanNode::Internal { left, right, .. } => spec_entries(*left, pre.push(false))
            + spec_entries(*right, pre.push(true)),
    }
}

/// Every tree has at least one leaf.
proof fn lemma_leaves_len(n: HuffmanNode)
    ensures
        spec_leaves(n).len() >= 1,
    decreases n,
{
    match n {
        HuffmanNode::Leaf { .. } => {},
        HuffmanNode::Internal { left, right, .. } => {
            lemma_leaves_len(*left);
            lemma_leaves_len(*right);
        },
    }
}

/// A prefix of a prefix is a prefix.
proof fn lemma_prefix_trans(a: Seq<bool>, b: Seq<bool>, c: Seq<bool>)
    requires
        spec_is_prefix(a, b),
        spec_is_prefix(b, c),
    ensures
        spec_is_prefix(a, c),
{
    assert(a =~= c.take(a.len() as int));
}

/// The table read off a tree lists exactly the leaves, in order; every code
/// extends the prefix the search started from, by at most the leaf count
/// less one, and by at least one bit under an internal node.
proof fn lemma_entries_basic(n: HuffmanNode, pre: Seq<bool>)
    ensures
        spec_entries(n, pre).len() == spec_leaves(n).len(),
        forall|t: int|
            0 <= t < spec_entries(n, pre).len() ==> (#[trigger] spec_entries(n, pre)[t]).0
                == spec_leaves(n)[t],
        forall|t: int|
            0 <= t < spec_entries(n, pre).len() ==> spec_is_prefix(
                pre,
                (#[trigger] spec_entries(n, pre)[t]).1,
            ),
        forall|t: int|
            0 <= t < spec_entries(n, pre).len() ==> pre.len() <= (
            #[trigger] spec_entries(n, pre)[t]).1.len() <= pre.len() + spec_leaves(n).len() - 1,
        n is Internal ==> forall|t: int|
            0 <= t < spec_entries(n, pre).len() ==> (#[trigger] spec_entries(n, pre)[t]).1.len()
                >= pre.len() + 1,
    decreases n,
{
    match n {
        HuffmanNode::Leaf { byte, .. } => {
            assert(pre.take(pre.len() as int) =~= pre);
            assert(spec_entries(n, pre)[0] == (byte, pre));
        },
        HuffmanNode::Internal { left, right, .. } => {
            lemma_entries_basic(*left, pre.push(false));
            lemma_entries_basic(*right, pre.push(true));
            lemma_leaves_len(*left);
            lemma_leaves_len(*right);
            let el = spec_entries(*left, pre.push(false));
            let er = spec_entries(*right, pre.push(true));
            let ll = spec_leaves(*left);
            let lr = spec_leaves(*right);
            assert(pre.push(false).take(pre.len() as int) =~= pre);
            assert(pre.push(true).take(pre.len() as int) =~= pre);
            assert(spec_is_prefix(pre, pre.push(false)));
            assert(spec_is_prefix(pre, pre.push(true)));
            assert forall|t: int| 0 <= t < spec_entries(n, pre).len() implies {
                &&& (#[trigger] spec_entries(n, pre)[t]).0 == spec_leaves(n)[t]
                &&& spec_is_prefix(pre, spec_entries(n, pre)[t].1)
                &&& pre.len() + 1 <= spec_entries(n, pre)[t].1.len() <= pre.len() + spec_leaves(
                    n,
                ).len() - 1
            } by {
                if t < el.len() {
                    assert(spec_entries(n, pre)[t] == el[t]);
                    assert(spec_leaves(n)[t] == ll[t]);
                    lemma_prefix_trans(pre, pre.push(false), el[t].1);
                } else {
                    assert(spec_entries(n, pre)[t] == er[t - el.len()]);
                    assert(spec_leaves(n)[t] == lr[t - ll.len()]);
                    lemma_prefix_trans(pre, pre.push(true), er[t - el.len()].1);
                }
            }
        },
    }
}

/// Read off a well-formed tree, distinct leaves get distinct bytes and no
/// code is a prefix of another.
proof fn lemma_entries_distinct(n: HuffmanNode, pre: Seq<bool>)
    requires
        spec_wf_node(n),
    ensures
        forall|t1: int, t2: int|
            0 <= t1 < spec_entries(n, pre).len() && 0 <= t2 < spec_entries(n, pre).len() && t1
                != t2 ==> (#[trigger] spec_entries(n, pre)[t1]).0 != (
            #[trigger] spec_entries(n, pre)[t2]).0,
        forall|t1: int, t2: int|
            0 <= t1 < spec_entries(n, pre).len() && 0 <= t2 < spec_entries(n, pre).len() && t1
                != t2 ==> !spec_is_prefix(
                (#[trigger] spec_entries(n, pre)[t1]).1,
                (#[trigger] spec_entries(n, pre)[t2]).1,
            ),
    decreases n,
{
    match n {
        HuffmanNode::Leaf { .. } => {},
        HuffmanNode::Internal { left, right, .. } => {
            lemma_entries_distinct(*left, pre.push(false));
            lemma_entries_distinct(*right, pre.push(true));
            lemma_entries_basic(*left, pre.push(false));
            lemma_entries_basic(*right, pre.push(true));
            let el = spec_entries(*left, pre.push(false));
            let er = spec_entries(*right, pre.push(true));
            let ll = spec_leaves(*left);
            let lr = spec_leaves(*right);
            assert forall|t1: int, t2: int|
                0 <= t1 < spec_entries(n, pre).len() && 0 <= t2 < spec_entries(n, pre).len() && t1
                    != t2 implies {
                &&& (#[trigger] spec_entries(n, pre)[t1]).0 != (
                #[trigger] spec_entries(n, pre)[t2]).0
                &&& !spec_is_prefix(spec_entries(n, pre)[t1].1, spec_entries(n, pre)[t2].1)
            } by {
                let e1 = spec_entries(n, pre)[t1];
                let e2 = spec_entries(n, pre)[t2];
                if t1 < el.len() && t2 < el.len() {
                    assert(e1 == el[t1] && e2 == el[t2]);
                } else if t1 >= el.len() && t2 >= el.len() {
                    assert(e1 == er[t1 - el.len()] && e2 == er[t2 - el.len()]);
                } else {
                    let (tl, tr, cl, cr) = if t1 < el.len() {
                        (t1, t2 - el.len(), e1, e2)
                    } else {
                        (t2, t1 - el.len(), e2, e1)
                    };
                    assert(cl == el[tl] && cr == er[tr]);
                    assert(cl.0 == ll[tl] && cr.0 == lr[tr]);
                    assert(cl.0 != cr.0);
                    // The codes part ways right after the shared prefix.
                    assert(spec_is_prefix(pre.push(false), cl.1));
                    assert(spec_is_prefix(pre.push(true), cr.1));
                    assert(cl.1.take((pre.len() + 1) as int)[pre.len() as int] == false);
                    assert(cr.1.take((pre.len() + 1) as int)[pre.len() as int] == true);
                    assert(cl.1[pre.len() as int] == false);
                    assert(cr.1[pre.len() as int] == true);
                    if spec_is_prefix(cl.1, cr.1) {
                        assert(cr.1.take(cl.1.len() as int)[pre.len() as int] == cr.1[pre.len() as int]);
                        assert(false);
                    }
                    if spec_is_prefix(cr.1, cl.1) {
                        assert(cl.1.take(cr.1.len() as int)[pre.len() as int] == cl.1[pre.len() as int]);
                        assert(false);
                    }
                }
            }
        },
    }
}

// ---------------------------------------------------------------------------
// Building the tree from a frequency table
// ---------------------------------------------------------------------------
/// How often a byte occurs in a buffer.
pub open spec fn spec_count(s: Seq<u8>, b: u8) -> nat
    decreases s.len(),
{
    if s.len() == 0 {
        0
    } else {
        spec_count(s.drop_last(), b) + (if s.last() == b {
            1nat
        } else {
            0nat
        })
    }
}

proof fn lemma_count_le_len(s: Seq<u8>, b: u8)
    ensures
        spec_count(s, b) <= s.len(),
    decreases s.len(),
{
    if s.len() > 0 {
        lemma_count_le_len(s.drop_last(), b);
    }
}

/// The leaf count of a whole forest.
pub open spec fn spec_total_leaves(s: Seq<HuffmanNode>) -> nat
    decreases s.len(),
{
    if s.len() == 0 {
        0
    } else {
        spec_leaves(s[0]).len() + spec_total_leaves(s.drop_first())
    }
}

proof fn lemma_total_leaves_push(s: Seq<HuffmanNode>, n: HuffmanNode)
    ensures
        spec_total_leaves(s.push(n)) == spec_total_leaves(s) + spec_leaves(n).len(),
    decreases s.len(),
{
    if s.len() == 0 {
        assert(s.push(n)[0] == n);
        assert(s.push(n).drop_first() =~= Seq::<HuffmanNode>::empty());
        assert(spec_total_leaves(Seq::<HuffmanNode>::empty()) == 0);
    } else {
        assert(s.push(n)[0] == s[0]);
        assert(s.push(n).drop_first() =~= s.drop_first().push(n));
        lemma_total_leaves_push(s.drop_first(), n);
    }
}

proof fn lemma_total_leaves_remove(s: Seq<HuffmanNode>, i: int)
    requires
        0 <= i < s.len(),
    ensures
        spec_total_leaves(s.remove(i)) + spec_leaves(s[i]).len() == spec_total_leaves(s),
    decreases s.len(),
{
    if i == 0 {
        assert(s.remove(0) =~= s.drop_first());
    } else {
        assert(s.remove(i)[0] == s[0]);
        assert(s.remove(i).drop_first() =~= s.drop_first().remove(i - 1));
        lemma_total_leaves_remove(s.drop_first(), i - 1);
    }
}

/// No byte stands at a leaf of both nodes.
pub open spec fn spec_nodes_disjoint(a: HuffmanNode, b: HuffmanNode) -> bool {
    forall|k1: int, k2: int|
        0 <= k1 < spec_leaves(a).len() && 0 <= k2 < spec_leaves(b).len()
            ==> #[trigger] spec_leaves(a)[k1] != #[trigger] spec_leaves(b)[k2]
}

/// Every node is well formed and no byte stands in two nodes.
pub open spec fn spec_forest_ok(s: Seq<HuffmanNode>) -> bool {
    &&& forall|i: int| 0 <= i < s.len() ==> spec_wf_node(#[trigger] s[i])
    &&& forall|i: int, j: int|
        0 <= i < s.len() && 0 <= j < s.len() && i != j ==> spec_nodes_disjoint(
            #[trigger] s[i],
            #[trigger] s[j],
        )
}

/// The byte stands at a leaf of some node of the forest.
pub open spec fn spec_forest_has(s: Seq<HuffmanNode>, b: u8) -> bool {
    exists|i: int| 0 <= i < s.len() && spec_node_has(#[trigger] s[i], b)
}

/// Two node frequencies combined, held at the largest 64-bit value rather
/// than wrapping.
pub open spec fn spec_sat_add(a: u64, b: u64) -> u64 {
    if a + b <= u64::MAX {
        (a + b) as u64
    } else {
        u64::MAX
    }
}

/// Every leaf records its byte's table frequency, which is positive, and
/// every internal node the combination of its children's frequencies.
pub open spec fn spec_node_freqs_ok(n: HuffmanNode, freqs: Seq<u64>) -> bool
    decreases n,
{
    match n {
        HuffmanNode::Leaf { byte, freq } => freq == freqs[byte as int] && freq > 0,
        HuffmanNode::Internal { internal_freq, left, right } => {
            &&& spec_node_freqs_ok(*left, freqs)
            &&& spec_node_freqs_ok(*right, freqs)
            &&& internal_freq == spec_sat_add(spec_node_freq(*left), spec_node_freq(*right))
        },
    }
}

/// The starting forest for the byte values below `b`: one leaf per byte with
/// positive frequency, in ascending byte order.
pub open spec fn spec_leaf_forest_upto(freqs: Seq<u64>, b: int) -> Seq<HuffmanNode>
    decreases b,
{
    if b <= 0 {
        Seq::empty()
    } else {
        spec_leaf_forest_upto(freqs, b - 1) + (if freqs[b - 1] > 0 {
            seq![HuffmanNode::Leaf { byte: (b - 1) as u8, freq: freqs[b - 1] }]
        } else {
            Seq::<HuffmanNode>::empty()
        })
    }
}

/// The starting forest of a frequency table: one leaf per occurring byte.
pub open spec fn spec_leaf_forest(freqs: Seq<u64>) -> Seq<HuffmanNode> {
    spec_leaf_forest_upto(freqs, 256)
}

/// A table with no occurrences yields an empty starting forest.
proof fn lemma_leaf_forest_all_zero(freqs: Seq<u64>, k: int)
    requires
        freqs.len() == 256,
        0 <= k <= 256,
        forall|b: u8| #![trigger freqs[b as int]] freqs[b as int] == 0,
    ensures
        spec_leaf_forest_upto(freqs, k).len() == 0,
    decreases k,
{
    if k > 0 {
        lemma_leaf_forest_all_zero(freqs, k - 1);
        assert(((k - 1) as u8) as int == k - 1);
        assert(freqs[((k - 1) as u8) as int] == 0);
    }
}

/// The node at `i` has the lowest frequency in the forest.
pub open spec fn spec_pick_minimal(forest: Seq<HuffmanNode>, i: int) -> bool {
    &&& 0 <= i < forest.len()
    &&& forall|j: int|
        0 <= j < forest.len() ==> spec_node_freq(forest[i]) <= spec_node_freq(#[trigger] forest[j])
}

/// One greedy step: the node at `i1` and, from what remains, the node at
/// `i2` leave the forest, and the internal node combining them enters it.
pub open spec fn spec_merge_step(forest: Seq<HuffmanNode>, i1: int, i2: int) -> Seq<HuffmanNode>
    recommends
        0 <= i1 < forest.len(),
        0 <= i2 < forest.len() - 1,
{
    forest.remove(i1).remove(i2).push(
        HuffmanNode::Internal {
            internal_freq: spec_sat_add(
                spec_node_freq(forest[i1]),
                spec_node_freq(forest.remove(i1)[i2]),
            ),
            left: Box::new(forest[i1]),
            right: Box::new(forest.remove(i1)[i2]),
        },
    )
}

/// The forest collapses to `root` by the recorded merges, each combining two
/// lowest-frequency nodes: the first pick is minimal in the forest, the
/// second minimal among the rest.
pub open spec fn spec_merge_run(
    forest: Seq<HuffmanNode>,
    picks: Seq<(int, int)>,
    root: HuffmanNode,
) -> bool
    decreases picks.len(),
{
    if picks.len() == 0 {
        forest.len() == 1 && forest[0] == root
    } else {
        let p = picks[0];
        &&& spec_pick_minimal(forest, p.0)
        &&& spec_pick_minimal(forest.remove(p.0), p.1)
        &&& spec_merge_run(spec_merge_step(forest, p.0, p.1), picks.drop_first(), root)
    }
}

/// The frequency recorded at a node, as executable code.
fn node_freq(n: &HuffmanNode) -> (r: u64)
    ensures
        r == spec_node_freq(*n),
{
    match n {
        HuffmanNode::Leaf { freq, .. } => *freq,
        HuffmanNode::Internal { internal_freq, .. } => *internal_freq,
    }
}

/// The index of a node with the lowest recorded frequency.
fn find_min_index(nodes: &Vec<HuffmanNode>) -> (r: usize)
    requires
        nodes@.len() >= 1,
    ensures
        r < nodes@.len(),
        forall|j: int|
            0 <= j < nodes@.len() ==> spec_node_freq(nodes@[r as int]) <= spec_node_freq(
                #[trigger] nodes@[j],
            ),
{
    let mut best: usize = 0;
    let mut best_freq: u64 = node_freq(&nodes[0]);
    let n = nodes.len();
    let mut i: usize = 1;
    while i < n
        invariant
            n == nodes@.len(),
            1 <= i <= n,
            best < i,
            best_freq == spec_node_freq(nodes@[best as int]),
            forall|j: int| 0 <= j < i ==> best_freq <= spec_node_freq(#[trigger] nodes@[j]),
        decreases n - i,
    {
        let f = node_freq(&nodes[i]);
        if f < best_freq {
            best = i;
            best_freq = f;
        }
        i = i + 1;
    }
    best
}

/// A Huffman transformer: the tree built from a frequency table, or no tree
/// at all for empty input.
pub struct HuffmanEncoder {
    root: Option<Box<HuffmanNode>>,
}

/// The encoder holds a tree.
pub closed spec fn spec_has_root(e: HuffmanEncoder) -> bool {
    e.root is Some
}

/// The tree held by an encoder, where there is one.
pub closed spec fn spec_root(e: HuffmanEncoder) -> HuffmanNode
    recommends
        spec_has_root(e),
{
    *e.root->0
}

/// The encoder's tree, if any, is well formed and covers at most 256 bytes.
pub closed spec fn spec_encoder_ok(e: HuffmanEncoder) -> bool {
    match e.root {
        None => true,
        Some(n) => spec_wf_node(*n) && spec_leaves(*n).len() <= 256,
    }
}

impl HuffmanEncoder {
    /// Counts how often each byte value occurs in the input.
    pub fn obtain_frequencies(vocabulary: &Vec<u8>) -> (r: Vec<u64>)
        ensures
            r@.len() == 256,
            forall|b: u8| r@[b as int] == spec_count(vocabulary@, b),
    {
        let mut frequencies: Vec<u64> = Vec::new();
        let mut z: usize = 0;
        while z < 256
            invariant
                z <= 256,
                frequencies@.len() == z,
                forall|j: int| 0 <= j < z ==> frequencies@[j] == 0,
            decreases 256 - z,
        {
            frequencies.push(0);
            z = z + 1;
        }
        proof {
            assert(vocabulary@.take(0) =~= Seq::<u8>::empty());
            assert forall|b: u8| frequencies@[b as int] == spec_count(
                vocabulary@.take(0),
                b,
            ) by {
                assert(spec_count(Seq::<u8>::empty(), b) == 0);
            }
        }
        let n = vocabulary.len();
        let mut i: usize = 0;
        while i < n
            invariant
                n == vocabulary@.len(),
                i <= n,
                frequencies@.len() == 256,
                forall|b: u8| frequencies@[b as int] == spec_count(vocabulary@.take(i as int), b),
            decreases n - i,
        {
            let word = vocabulary[i];
            proof {
                lemma_count_le_len(vocabulary@.take(i as int), word);
            }
            let old_count = frequencies[word as usize];
            frequencies[word as usize] = old_count + 1;
            proof {
                assert forall|b: u8| frequencies@[b as int] == spec_count(
                    vocabulary@.take(i + 1),
                    b,
                ) by {
                    assert(vocabulary@.take(i + 1).drop_last() =~= vocabulary@.take(i as int));
                    assert(vocabulary@.take(i + 1).last() == word);
                }
            }
            i = i + 1;
        }
        proof {
            assert(vocabulary@.take(n as int) =~= vocabulary@);
        }
        frequencies
    }

    /// Builds the tree as a min-priority queue would: one leaf per occurring
    /// byte, then repeatedly the two lowest-frequency nodes are combined
    /// until one tree remains. The result is reachable from the leaf forest
    /// by a run of greedy merges, and every node's recorded frequency is
    /// consistent with the table.
    #[verifier::rlimit(50)]
    pub fn new(frequencies: &Vec<u64>) -> (r: Self)
        requires
            frequencies@.len() == 256,
        ensures
            spec_encoder_ok(r),
            forall|b: u8| #![trigger frequencies@[b as int]]
                frequencies@[b as int] > 0 ==> spec_has_root(r) && spec_node_has(spec_root(r), b),
            (forall|b: u8| #![trigger frequencies@[b as int]] frequencies@[b as int] == 0)
                ==> !spec_has_root(r),
            spec_has_root(r) ==> spec_node_freqs_ok(spec_root(r), frequencies@),
            spec_has_root(r) ==> exists|picks: Seq<(int, int)>|
                spec_merge_run(spec_leaf_forest(frequencies@), picks, spec_root(r)),
    {
        let mut nodes: Vec<HuffmanNode> = Vec::new();
        let mut bi: usize = 0;
        proof {
            assert(nodes@ =~= spec_leaf_forest_upto(frequencies@, 0));
        }
        while bi < 256
            invariant
                frequencies@.len() == 256,
                bi <= 256,
                spec_forest_ok(nodes@),
                spec_total_leaves(nodes@) <= bi,
                nodes@ == spec_leaf_forest_upto(frequencies@, bi as int),
                forall|j: int|
                    0 <= j < nodes@.len() ==> spec_node_freqs_ok(
                        #[trigger] nodes@[j],
                        frequencies@,
                    ),
                forall|j: int|
                    0 <= j < nodes@.len() ==> spec_leaves(#[trigger] nodes@[j]).len() == 1
                        && spec_leaves(nodes@[j])[0] < bi,
                forall|b: u8|
                    b < bi && frequencies@[b as int] > 0 ==> spec_forest_has(nodes@, b),
            decreases 256 - bi,
        {
            if frequencies[bi] > 0 {
                let leaf = HuffmanNode::Leaf { byte: bi as u8, freq: frequencies[bi] };
                let ghost old_nodes = nodes@;
                proof {
                    assert(spec_leaves(leaf) =~= seq![bi as u8]);
                    lemma_total_leaves_push(old_nodes, leaf);
                }
                nodes.push(leaf);
                proof {
                    assert(nodes@ =~= spec_leaf_forest_upto(frequencies@, bi + 1));
                    assert forall|i: int, j: int|
                        0 <= i < nodes@.len() && 0 <= j < nodes@.len() && i != j implies
                        spec_nodes_disjoint(#[trigger] nodes@[i], #[trigger] nodes@[j]) by {
                        if i < old_nodes.len() && j < old_nodes.len() {
                            assert(nodes@[i] == old_nodes[i] && nodes@[j] == old_nodes[j]);
                        } else if i < old_nodes.len() {
                            assert(nodes@[i] == old_nodes[i] && nodes@[j] == leaf);
                        } else {
                            assert(nodes@[i] == leaf && nodes@[j] == old_nodes[j]);
                        }
                    }
                    assert forall|b: u8|
                        b < bi + 1 && frequencies@[b as int] > 0 implies spec_forest_has(
                        nodes@,
                        b,
                    ) by {
                        if b < bi {
                            assert(spec_forest_has(old_nodes, b));
                            let w = choose|w: int|
                                0 <= w < old_nodes.len() && spec_node_has(#[trigger] old_nodes[w], b);
                            assert(nodes@[w] == old_nodes[w]);
                            assert(spec_node_has(nodes@[w], b));
                        } else {
                            assert(nodes@[nodes@.len() - 1] == leaf);
                            assert(spec_leaves(leaf)[0] == b);
                            assert(spec_node_has(nodes@[nodes@.len() - 1], b));
                        }
                    }
                }
            } else {
                proof {
                    assert(nodes@ =~= spec_leaf_forest_upto(frequencies@, bi + 1));
                }
            }
            bi = bi + 1;
        }
        let ghost init_forest = spec_leaf_forest(frequencies@);
        let ghost mut picks: Seq<(int, int)> = Seq::empty();
        proof {
            assert(nodes@ == init_forest);
            assert forall|tail: Seq<(int, int)>, r2: HuffmanNode|
                #[trigger] spec_merge_run(nodes@, tail, r2) implies spec_merge_run(
                init_forest,
                picks + tail,
                r2,
            ) by {
                assert(picks + tail =~= tail);
            }
        }
        while nodes.len() > 1
            invariant
                frequencies@.len() == 256,
                init_forest == spec_leaf_forest(frequencies@),
                spec_forest_ok(nodes@),
                spec_total_leaves(nodes@) <= 256,
                nodes@.len() <= init_forest.len(),
                forall|j: int|
                    0 <= j < nodes@.len() ==> spec_node_freqs_ok(
                        #[trigger] nodes@[j],
                        frequencies@,
                    ),
                forall|b: u8| frequencies@[b as int] > 0 ==> spec_forest_has(nodes@, b),
                forall|tail: Seq<(int, int)>, r2: HuffmanNode|
                    #[trigger] spec_merge_run(nodes@, tail, r2) ==> spec_merge_run(
                        init_forest,
                        picks + tail,
                        r2,
                    ),
            decreases nodes@.len(),
        {
            let ghost s0 = nodes@;
            let m1 = find_min_index(&nodes);
            let left_node = nodes.remove(m1);
            let ghost s1 = nodes@;
            let ghost a = left_node;
            let m2 = find_min_index(&nodes);
            let right_node = nodes.remove(m2);
            let ghost s2 = nodes@;
            let ghost b_node = right_node;
            let ghost j0: int = if m2 < m1 { m2 as int } else { m2 + 1 };
            proof {
                assert forall|j: int| 0 <= j < s1.len() implies #[trigger] s1[j] == (if j < m1 {
                    s0[j]
                } else {
                    s0[j + 1]
                }) by {}
                assert forall|j: int| 0 <= j < s2.len() implies #[trigger] s2[j] == (if j < m2 {
                    s1[j]
                } else {
                    s1[j + 1]
                }) by {}
                assert(a == s0[m1 as int]);
                assert(b_node == s1[m2 as int]);
                assert(b_node == s0[j0]);
                assert(j0 != m1);
            }
            let freq1 = node_freq(&left_node);
            let freq2 = node_freq(&right_node);
            let internal_freq: u64 = if freq1 <= u64::MAX - freq2 {
                freq1 + freq2
            } else {
                u64::MAX
            };
            let internal_node = HuffmanNode::Internal {
                internal_freq,
                left: Box::new(left_node),
                right: Box::new(right_node),
            };
            let ghost comb = internal_node;
            proof {
                assert(spec_leaves(comb) == spec_leaves(a) + spec_leaves(b_node));
                assert(spec_wf_node(comb)) by {
                    assert(spec_nodes_disjoint(s0[m1 as int], s0[j0]));
                }
                lemma_total_leaves_remove(s0, m1 as int);
                lemma_total_leaves_remove(s1, m2 as int);
                lemma_total_leaves_push(s2, comb);
            }
            nodes.push(internal_node);
            proof {
                let s3 = nodes@;
                // every surviving slot holds a node of the original forest
                assert forall|j: int| 0 <= j < s2.len() implies exists|q: int|
                    0 <= q < s0.len() && q != m1 && q != j0 && #[trigger] s2[j] == s0[q] by {
                    let q1: int = if j < m2 { j } else { j + 1 };
                    let q0: int = if q1 < m1 { q1 } else { q1 + 1 };
                    assert(s2[j] == s1[q1]);
                    assert(s1[q1] == s0[q0]);
                    assert(0 <= q0 < s0.len() && q0 != m1 && q0 != j0 && s2[j] == s0[q0]);
                }
                assert forall|i: int, j: int|
                    0 <= i < s3.len() && 0 <= j < s3.len() && i != j implies spec_nodes_disjoint(
                    #[trigger] s3[i],
                    #[trigger] s3[j],
                ) by {
                    if i < s2.len() && j < s2.len() {
                        let qi = choose|q: int|
                            0 <= q < s0.len() && q != m1 && q != j0 && #[trigger] s2[i] == s0[q];
                        let qj = choose|q: int|
                            0 <= q < s0.len() && q != m1 && q != j0 && #[trigger] s2[j] == s0[q];
                        assert(s3[i] == s2[i] && s3[j] == s2[j]);
                        if qi == qj {
                            // two distinct slots cannot hold the same original index:
                            // disjointness of a node with itself would fail on its first leaf
                            lemma_leaves_len(s0[qi]);
                            assert(spec_nodes_disjoint(s0[qi], s0[qj]) ==> spec_leaves(
                                s0[qi],
                            )[0] != spec_leaves(s0[qj])[0]);
                            assert(i == j);
                        } else {
                            assert(spec_nodes_disjoint(s0[qi], s0[qj]));
                        }
                    } else if i < s2.len() {
                        assert(s3[j] == comb);
                        let qi = choose|q: int|
                            0 <= q < s0.len() && q != m1 && q != j0 && #[trigger] s2[i] == s0[q];
                        assert(spec_nodes_disjoint(s0[qi], s0[m1 as int]));
                        assert(spec_nodes_disjoint(s0[qi], s0[j0]));
                        assert forall|k1: int, k2: int|
                            0 <= k1 < spec_leaves(s3[i]).len() && 0 <= k2 < spec_leaves(
                                comb,
                            ).len() implies #[trigger] spec_leaves(s3[i])[k1]
                            != #[trigger] spec_leaves(comb)[k2] by {
                            if k2 < spec_leaves(a).len() {
                                assert(spec_leaves(comb)[k2] == spec_leaves(a)[k2]);
                            } else {
                                assert(spec_leaves(comb)[k2] == spec_leaves(b_node)[k2
                                    - spec_leaves(a).len()]);
                            }
                        }
                    } else {
                        assert(s3[i] == comb && s3[j] == s2[j]);
                        let qj = choose|q: int|
                            0 <= q < s0.len() && q != m1 && q != j0 && #[trigger] s2[j] == s0[q];
                        assert(spec_nodes_disjoint(s0[m1 as int], s0[qj]));
                        assert(spec_nodes_disjoint(s0[j0], s0[qj]));
                        assert forall|k1: int, k2: int|
                            0 <= k1 < spec_leaves(comb).len() && 0 <= k2 < spec_leaves(
                                s3[j],
                            ).len() implies #[trigger] spec_leaves(comb)[k1]
                            != #[trigger] spec_leaves(s3[j])[k2] by {
                            if k1 < spec_leaves(a).len() {
                                assert(spec_leaves(comb)[k1] == spec_leaves(a)[k1]);
                            } else {
                                assert(spec_leaves(comb)[k1] == spec_leaves(b_node)[k1
                                    - spec_leaves(a).len()]);
                            }
                        }
                    }
                }
                assert forall|bb: u8| frequencies@[bb as int] > 0 implies spec_forest_has(
                    s3,
                    bb,
                ) by {
                    assert(spec_forest_has(s0, bb));
                    let w = choose|w: int| 0 <= w < s0.len() && spec_node_has(#[trigger] s0[w], bb);
                    if w == m1 {
                        let k = choose|k: int|
                            0 <= k < spec_leaves(a).len() && spec_leaves(a)[k] == bb;
                        assert(spec_leaves(comb)[k] == bb);
                        assert(spec_node_has(s3[s3.len() - 1], bb));
                    } else if w == j0 {
                        let k = choose|k: int|
                            0 <= k < spec_leaves(b_node).len() && spec_leaves(b_node)[k] == bb;
                        assert(spec_leaves(comb)[spec_leaves(a).len() + k] == bb);
                        assert(spec_node_has(s3[s3.len() - 1], bb));
                    } else {
                        let q1: int = if w < m1 { w } else { w - 1 };
                        let q2: int = if q1 < m2 { q1 } else { q1 - 1 };
                        assert(s1[q1] == s0[w]);
                        assert(s2[q2] == s1[q1]);
                        assert(s3[q2] == s2[q2]);
                        assert(spec_node_has(s3[q2], bb));
                    }
                }
                // frequencies stay consistent with the table
                assert forall|j: int| 0 <= j < s3.len() implies spec_node_freqs_ok(
                    #[trigger] s3[j],
                    frequencies@,
                ) by {
                    if j < s2.len() {
                        let q = choose|q: int|
                            0 <= q < s0.len() && q != m1 && q != j0 && #[trigger] s2[j] == s0[q];
                        assert(s3[j] == s2[j]);
                    } else {
                        assert(s3[j] == comb);
                        assert(spec_node_freqs_ok(a, frequencies@));
                        assert(spec_node_freqs_ok(b_node, frequencies@));
                    }
                }
                // this iteration is one greedy step of the merge run
                assert(s1 == s0.remove(m1 as int));
                assert(s2 == s1.remove(m2 as int));
                assert(s3 =~= spec_merge_step(s0, m1 as int, m2 as int));
                assert(spec_pick_minimal(s0, m1 as int));
                assert(spec_pick_minimal(s1, m2 as int));
                let old_picks = picks;
                picks = picks + seq![(m1 as int, m2 as int)];
                assert forall|tail: Seq<(int, int)>, r2: HuffmanNode|
                    #[trigger] spec_merge_run(s3, tail, r2) implies spec_merge_run(
                    init_forest,
                    picks + tail,
                    r2,
                ) by {
                    let tail2 = seq![(m1 as int, m2 as int)] + tail;
                    assert(tail2[0] == (m1 as int, m2 as int));
                    assert(tail2.drop_first() =~= tail);
                    assert(spec_merge_run(s0, tail2, r2));
                    assert(spec_merge_run(init_forest, old_picks + tail2, r2));
                    assert(old_picks + tail2 =~= picks + tail);
                }
            }
        }
        if nodes.len() == 0 {
            proof {
                assert forall|b: u8| frequencies@[b as int] <= 0 by {
                    if frequencies@[b as int] > 0 {
                        assert(spec_forest_has(nodes@, b));
                        let w = choose|w: int|
                            0 <= w < nodes@.len() && spec_node_has(#[trigger] nodes@[w], b);
                        assert(false);
                    }
                }
            }
            return HuffmanEncoder { root: None };
        }
        let ghost sfin = nodes@;
        let root_node = match nodes.pop() {
            Some(n) => n,
            None => {
                proof {
                    assert(false);
                }
                return HuffmanEncoder { root: None };
            },
        };
        proof {
            assert(root_node == sfin[0]);
            assert(spec_leaves(root_node).len() <= spec_total_leaves(sfin));
            assert forall|b: u8| frequencies@[b as int] > 0 implies spec_node_has(
                root_node,
                b,
            ) by {
                assert(spec_forest_has(sfin, b));
                let w = choose|w: int| 0 <= w < sfin.len() && spec_node_has(#[trigger] sfin[w], b);
                assert(w == 0);
            }
            assert(spec_node_freqs_ok(root_node, frequencies@));
            assert(spec_merge_run(sfin, Seq::<(int, int)>::empty(), root_node));
            assert(spec_merge_run(init_forest, picks + Seq::<(int, int)>::empty(), root_node));
            assert(picks + Seq::<(int, int)>::empty() =~= picks);
            assert(spec_merge_run(init_forest, picks, root_node));
            if forall|b: u8| #![trigger frequencies@[b as int]] frequencies@[b as int] == 0 {
                lemma_leaf_forest_all_zero(frequencies@, 256);
                assert(false);
            }
        }
        HuffmanEncoder { root: Some(Box::new(root_node)) }
    }
}

// ---------------------------------------------------------------------------
// The header: code count, table entries, original length, packed payload
// ---------------------------------------------------------------------------
/// One table entry on the wire: byte value, code length in bits, then the
/// code packed into whole bytes.
pub open spec fn spec_entry_bytes(e: (u8, Seq<bool>)) -> Seq<u8> {
    seq![e.0, e.1.len() as u8] + spec_bytes_of_bits(e.1)
}

/// All table entries, in order.
pub open spec fn spec_entries_bytes(t: Seq<(u8, Seq<bool>)>) -> Seq<u8>
    decreases t.len(),
{
    if t.len() == 0 {
        Seq::empty()
    } else {
        spec_entry_bytes(t[0]) + spec_entries_bytes(t.drop_first())
    }
}

/// The whole Huffman buffer: a 16-bit big-endian code count, the entries,
/// the 32-bit big-endian original length, and the packed bit stream.
pub open spec fn spec_header(t: Seq<(u8, Seq<bool>)>, olen: u32, payload: Seq<u8>) -> Seq<u8> {
    seq![((t.len() as int / 256) % 256) as u8, ((t.len() as int) % 256) as u8]
        + spec_entries_bytes(t) + spec_be32(olen) + payload
}

/// Reads `count` table entries, returning them and what follows.
pub open spec fn spec_parse_entries(s: Seq<u8>, count: nat) -> Option<
    (Seq<(u8, Seq<bool>)>, Seq<u8>),
>
    decreases count,
{
    if count == 0 {
        Some((Seq::empty(), s))
    } else if s.len() < 2 {
        None
    } else {
        let b = s[0];
        let clen = s[1] as int;
        let nb = (clen + 7) / 8;
        if s.len() < 2 + nb {
            None
        } else {
            let code = spec_bits_of_bytes(s.subrange(2, 2 + nb)).take(clen);
            match spec_parse_entries(s.skip(2 + nb), (count - 1) as nat) {
                None => None,
                Some((t, rest)) => Some((seq![(b, code)] + t, rest)),
            }
        }
    }
}

/// Splits a Huffman buffer into its code table, packed payload and original
/// length, or reports that the buffer is truncated.
pub open spec fn spec_parse_header(s: Seq<u8>) -> Option<(Seq<(u8, Seq<bool>)>, Seq<u8>, u32)> {
    if s.len() < 2 {
        None
    } else {
        let count = (s[0] as int) * 256 + (s[1] as int);
        match spec_parse_entries(s.skip(2), count as nat) {
            None => None,
            Some((t, rest)) => if rest.len() < 4 {
                None
            } else {
                Some((t, rest.skip(4), spec_u32_of_be(rest[0], rest[1], rest[2], rest[3])))
            },
        }
    }
}

proof fn lemma_entries_bytes_snoc(t: Seq<(u8, Seq<bool>)>, e: (u8, Seq<bool>))
    ensures
        spec_entries_bytes(t.push(e)) == spec_entries_bytes(t) + spec_entry_bytes(e),
    decreases t.len(),
{
    if t.len() == 0 {
        assert(t.push(e)[0] == e);
        assert(t.push(e).drop_first() =~= Seq::<(u8, Seq<bool>)>::empty());
        assert(spec_entries_bytes(Seq::<(u8, Seq<bool>)>::empty()) == Seq::<u8>::empty());
        assert(spec_entries_bytes(t.push(e)) =~= spec_entries_bytes(t) + spec_entry_bytes(e));
    } else {
        assert(t.push(e)[0] == t[0]);
        assert(t.push(e).drop_first() =~= t.drop_first().push(e));
        lemma_entries_bytes_snoc(t.drop_first(), e);
        assert(spec_entries_bytes(t.push(e)) =~= spec_entries_bytes(t) + spec_entry_bytes(e));
    }
}

/// Parsing reads back exactly the entries that were written.
proof fn lemma_parse_entries_inverts(t: Seq<(u8, Seq<bool>)>, rest: Seq<u8>)
    requires
        forall|i: int| 0 <= i < t.len() ==> (#[trigger] t[i]).1.len() <= 255,
    ensures
        spec_parse_entries(spec_entries_bytes(t) + rest, t.len()) == Some((t, rest)),
    decreases t.len(),
{
    if t.len() == 0 {
        assert(spec_entries_bytes(t) + rest =~= rest);
    } else {
        let e0 = t[0];
        let packed = spec_bytes_of_bits(e0.1);
        let s = spec_entries_bytes(t) + rest;
        lemma_bytes_of_bits_len(e0.1);
        let clen = e0.1.len() as int;
        let nb = (clen + 7) / 8;
        assert(packed.len() == nb);
        assert(spec_entry_bytes(e0).len() == 2 + nb);
        assert(s[0] == e0.0);
        assert(s[1] == clen as u8);
        assert(s[1] as int == clen);
        assert(s.len() >= 2 + nb);
        assert(s.subrange(2, 2 + nb) =~= packed);
        lemma_bits_of_bytes_of_bits(e0.1);
        assert(spec_zero_pad(e0.1).take(clen) =~= e0.1);
        assert(spec_bits_of_bytes(s.subrange(2, 2 + nb)).take(clen) == e0.1);
        assert(s.skip(2 + nb) =~= spec_entries_bytes(t.drop_first()) + rest);
        assert forall|i: int| 0 <= i < t.drop_first().len() implies (
        #[trigger] t.drop_first()[i]).1.len() <= 255 by {
            assert(t.drop_first()[i] == t[i + 1]);
        }
        lemma_parse_entries_inverts(t.drop_first(), rest);
        assert(seq![(e0.0, e0.1)] + t.drop_first() =~= t);
    }
}

/// Parsing reads back exactly the header that was written.
proof fn lemma_parse_header_inverts(t: Seq<(u8, Seq<bool>)>, olen: u32, payload: Seq<u8>)
    requires
        t.len() <= 65535,
        forall|i: int| 0 <= i < t.len() ==> (#[trigger] t[i]).1.len() <= 255,
    ensures
        spec_parse_header(spec_header(t, olen, payload)) == Some((t, payload, olen)),
{
    let hdr = spec_header(t, olen, payload);
    let c0 = ((t.len() as int / 256) % 256) as u8;
    let c1 = ((t.len() as int) % 256) as u8;
    assert(hdr[0] == c0);
    assert(hdr[1] == c1);
    assert(t.len() as int / 256 <= 255);
    assert((c0 as int) * 256 + (c1 as int) == t.len()) by (nonlinear_arith)
        requires
            t.len() <= 65535,
            c0 as int == (t.len() as int / 256) % 256,
            c1 as int == (t.len() as int) % 256,
    ;
    let tail = spec_be32(olen) + payload;
    assert(hdr.skip(2) =~= spec_entries_bytes(t) + tail);
    lemma_parse_entries_inverts(t, tail);
    assert(tail.len() >= 4);
    lemma_be32_round_trip(olen);
    assert(tail[0] == spec_be32(olen)[0]);
    assert(tail[1] == spec_be32(olen)[1]);
    assert(tail[2] == spec_be32(olen)[2]);
    assert(tail[3] == spec_be32(olen)[3]);
    assert(spec_u32_of_be(tail[0], tail[1], tail[2], tail[3]) == olen);
    assert(tail.skip(4) =~= payload);
}

impl HuffmanEncoder {
    /// Writes the header: code count, table entries, original length, and
    /// the already-packed payload.
    pub fn write_to_buffer(
        codes: &Vec<(u8, Vec<bool>)>,
        encoded_data: &[u8],
        original_len: usize,
    ) -> (r: Result<Vec<u8>, crate::codec::CodecError>)
        requires
            codes@.len() <= 65535,
            forall|i: int| 0 <= i < codes@.len() ==> (#[trigger] codes@[i]).1@.len() <= 255,
            original_len < 0x1_0000_0000,
        ensures
            r is Ok,
            r->Ok_0@ == spec_header(spec_table_view(codes@), original_len as u32, encoded_data@),
    {
        let mut cursor: Vec<u8> = Vec::new();
        let codes_count = codes.len();
        cursor.push((codes_count / 256) as u8);
        cursor.push((codes_count % 256) as u8);
        let ghost head = cursor@;
        let ghost tv = spec_table_view(codes@);
        let n = codes.len();
        let mut i: usize = 0;
        proof {
            assert(tv.take(0) =~= Seq::<(u8, Seq<bool>)>::empty());
            assert(cursor@ =~= head + spec_entries_bytes(tv.take(0)));
        }
        while i < n
            invariant
                n == codes@.len(),
                n <= 65535,
                i <= n,
                tv == spec_table_view(codes@),
                forall|q: int| 0 <= q < codes@.len() ==> (#[trigger] codes@[q]).1@.len() <= 255,
                cursor@ == head + spec_entries_bytes(tv.take(i as int)),
            decreases n - i,
        {
            let byte = codes[i].0;
            let code_len = codes[i].1.len();
            let ghost before = cursor@;
            cursor.push(byte);
            cursor.push(code_len as u8);
            let packed = bytes_from_bits(codes[i].1.as_slice());
            let m = packed.len();
            let ghost mid = cursor@;
            let mut q: usize = 0;
            while q < m
                invariant
                    m == packed@.len(),
                    q <= m,
                    cursor@ == mid + packed@.take(q as int),
                decreases m - q,
            {
                cursor.push(packed[q]);
                proof {
                    assert(cursor@ =~= mid + packed@.take(q + 1));
                }
                q = q + 1;
            }
            proof {
                assert(packed@.take(m as int) =~= packed@);
                assert(tv[i as int] == (codes@[i as int].0, codes@[i as int].1@));
                assert(cursor@ =~= before + spec_entry_bytes(tv[i as int]));
                assert(tv.take(i + 1) =~= tv.take(i as int).push(tv[i as int]));
                lemma_entries_bytes_snoc(tv.take(i as int), tv[i as int]);
                assert(cursor@ =~= head + spec_entries_bytes(tv.take(i + 1)));
            }
            i = i + 1;
        }
        proof {
            assert(tv.take(n as int) =~= tv);
        }
        let ol: u32 = original_len as u32;
        cursor.push((ol / 0x1000000) as u8);
        cursor.push(((ol / 0x10000) % 256) as u8);
        cursor.push(((ol / 0x100) % 256) as u8);
        cursor.push((ol % 256) as u8);
        let ghost with_len = cursor@;
        let e = encoded_data.len();
        let mut w: usize = 0;
        while w < e
            invariant
                e == encoded_data@.len(),
                w <= e,
                cursor@ == with_len + encoded_data@.take(w as int),
            decreases e - w,
        {
            cursor.push(encoded_data[w]);
            proof {
                assert(cursor@ =~= with_len + encoded_data@.take(w + 1));
            }
            w = w + 1;
        }
        proof {
            assert(encoded_data@.take(e as int) =~= encoded_data@);
            assert(ol / 0x1000000 < 256);
            assert(cursor@ =~= spec_header(tv, original_len as u32, encoded_data@));
        }
        Ok(cursor)
    }

    /// Reads the header back: the code table, the packed payload, and the
    /// original length; a truncated buffer is invalid data.
    pub fn read_from_buffer(buffer: &[u8]) -> (r: Result<
        (Vec<(u8, Vec<bool>)>, Vec<u8>, usize),
        crate::codec::CodecError,
    >)
        ensures
            match spec_parse_header(buffer@) {
                None => r is Err && r->Err_0 == crate::codec::CodecError::InvalidData,
                Some((t, payload, olen)) => {
                    &&& r is Ok
                    &&& spec_table_view(r->Ok_0.0@) == t
                    &&& r->Ok_0.1@ == payload
                    &&& r->Ok_0.2 as int == olen as int
                },
            },
    {
        if buffer.len() < 2 {
            return Err(crate::codec::CodecError::InvalidData);
        }
        let count: usize = (buffer[0] as usize) * 256 + (buffer[1] as usize);
        let mut codes: Vec<(u8, Vec<bool>)> = Vec::new();
        let mut pos: usize = 2;
        let mut parsed: usize = 0;
        proof {
            assert(buffer@.skip(2).len() == buffer@.len() - 2);
        }
        while parsed < count
            invariant
                2 <= pos <= buffer@.len(),
                parsed <= count,
                count == (buffer@[0] as int) * 256 + (buffer@[1] as int),
                buffer@.len() >= 2,
                spec_parse_entries(buffer@.skip(2), count as nat) == (match spec_parse_entries(
                    buffer@.skip(pos as int),
                    (count - parsed) as nat,
                ) {
                    None => None,
                    Some((t2, rest)) => Some((spec_table_view(codes@) + t2, rest)),
                }),
            decreases count - parsed,
        {
            let ghost tail = buffer@.skip(pos as int);
            if buffer.len() - pos < 2 {
                proof {
                    assert(tail.len() < 2);
                }
                return Err(crate::codec::CodecError::InvalidData);
            }
            let byte = buffer[pos];
            let clen = buffer[pos + 1] as usize;
            let nb = (clen + 7) / 8;
            if buffer.len() - pos - 2 < nb {
                proof {
                    assert(tail[0] == buffer@[pos as int]);
                    assert(tail[1] == buffer@[pos + 1]);
                    assert(tail.len() < 2 + nb);
                }
                return Err(crate::codec::CodecError::InvalidData);
            }
            let code_bytes = vstd::slice::slice_subrange(buffer, pos + 2, pos + 2 + nb);
            let all_bits = bits_from_bytes(code_bytes);
            proof {
                crate::bits::lemma_bits_of_bytes_len(code_bytes@);
                assert(all_bits@.len() == 8 * nb);
            }
            let mut code: Vec<bool> = Vec::new();
            let mut cb: usize = 0;
            while cb < clen
                invariant
                    clen <= all_bits@.len(),
                    cb <= clen,
                    code@ == all_bits@.take(cb as int),
                decreases clen - cb,
            {
                code.push(all_bits[cb]);
                proof {
                    assert(code@ =~= all_bits@.take(cb + 1));
                }
                cb = cb + 1;
            }
            let ghost old_codes = codes@;
            codes.push((byte, code));
            proof {
                assert(tail[0] == buffer@[pos as int]);
                assert(tail[1] == buffer@[pos + 1]);
                assert(tail.subrange(2, 2 + nb) =~= buffer@.subrange(pos + 2, pos + 2 + nb));
                assert(tail.skip(2 + nb) =~= buffer@.skip(pos + 2 + nb));
                assert(code@ =~= spec_bits_of_bytes(tail.subrange(2, 2 + nb)).take(clen as int));
                assert(spec_table_view(codes@) =~= spec_table_view(old_codes).push(
                    (byte, code@),
                ));
                assert forall|t2: Seq<(u8, Seq<bool>)>|
                    spec_table_view(old_codes) + (seq![(byte, code@)] + t2) =~= spec_table_view(
                        codes@,
                    ) + t2 by {}
            }
            pos = pos + 2 + nb;
            parsed = parsed + 1;
        }
        proof {
            assert(spec_parse_entries(buffer@.skip(pos as int), 0) == Some(
                (Seq::<(u8, Seq<bool>)>::empty(), buffer@.skip(pos as int)),
            ));
            assert(spec_table_view(codes@) + Seq::<(u8, Seq<bool>)>::empty() =~= spec_table_view(
                codes@,
            ));
        }
        if buffer.len() - pos < 4 {
            return Err(crate::codec::CodecError::InvalidData);
        }
        let b0 = buffer[pos];
        let b1 = buffer[pos + 1];
        let b2 = buffer[pos + 2];
        let b3 = buffer[pos + 3];
        let original_len: usize = ((b0 as usize) * 0x1000000 + (b1 as usize) * 0x10000 + (
        b2 as usize) * 0x100 + (b3 as usize));
        let mut payload: Vec<u8> = Vec::new();
        let n = buffer.len();
        let mut w: usize = pos + 4;
        proof {
            let rest = buffer@.skip(pos as int);
            assert(rest[0] == buffer@[pos as int]);
            assert(rest[1] == buffer@[pos + 1]);
            assert(rest[2] == buffer@[pos + 2]);
            assert(rest[3] == buffer@[pos + 3]);
            assert(rest.skip(4) =~= buffer@.skip(pos + 4));
        }
        while w < n
            invariant
                n == buffer@.len(),
                pos + 4 <= w <= n,
                payload@ == buffer@.subrange(pos + 4, w as int),
            decreases n - w,
        {
            payload.push(buffer[w]);
            proof {
                assert(payload@ =~= buffer@.subrange(pos + 4, w + 1));
            }
            w = w + 1;
        }
        proof {
            assert(payload@ =~= buffer@.skip(pos + 4));
        }
        Ok((codes, payload, original_len))
    }
}

// ---------------------------------------------------------------------------
// Code generation, bit encoding, and greedy decoding
// ---------------------------------------------------------------------------
/// The code table of an encoder: the table read off its tree, except that a
/// lone leaf (one distinct byte) gets the one-bit code `0`, and an absent
/// tree (empty input) gets an empty table.
pub closed spec fn spec_table_of(e: HuffmanEncoder) -> Seq<(u8, Seq<bool>)> {
    match e.root {
        None => Seq::empty(),
        Some(boxed) => match *boxed {
            HuffmanNode::Leaf { byte, .. } => seq![(byte, seq![false])],
            HuffmanNode::Internal { .. } => spec_entries(*boxed, Seq::empty()),
        },
    }
}

/// A well-formed encoder's table is well formed and has a code for every
/// byte at a leaf of its tree.
proof fn lemma_table_of_ok(e: HuffmanEncoder)
    requires
        spec_encoder_ok(e),
    ensures
        spec_wf_table(spec_table_of(e)),
        forall|b: u8|
            spec_has_root(e) && spec_node_has(spec_root(e), b) ==> spec_table_code(
                spec_table_of(e),
                b,
            ) is Some,
{
    let t = spec_table_of(e);
    match e.root {
        None => {
            assert(t.len() == 0);
        },
        Some(boxed) => {
            let n = *boxed;
            match n {
                HuffmanNode::Leaf { byte, .. } => {
                    assert(t == seq![(byte, seq![false])]);
                    assert(t[0].1.len() == 1);
                    assert(spec_wf_table(t));
                    assert forall|b: u8|
                        spec_has_root(e) && spec_node_has(spec_root(e), b) implies spec_table_code(
                        t,
                        b,
                    ) is Some by {
                        let k = choose|k: int|
                            0 <= k < spec_leaves(n).len() && spec_leaves(n)[k] == b;
                        assert(spec_leaves(n) == seq![byte]);
                        assert(b == byte);
                        assert(spec_table_code(t, b) is Some);
                    }
                },
                HuffmanNode::Internal { .. } => {
                    lemma_entries_basic(n, Seq::empty());
                    lemma_entries_distinct(n, Seq::empty());
                    lemma_leaves_len(n);
                    assert(t.len() == spec_leaves(n).len() <= 256);
                    assert forall|i: int| 0 <= i < t.len() implies 1 <= (
                    #[trigger] t[i]).1.len() <= 255 by {
                        assert(t[i].1.len() >= Seq::<bool>::empty().len() + 1);
                        assert(t[i].1.len() <= Seq::<bool>::empty().len() + spec_leaves(n).len()
                            - 1);
                    }
                    assert forall|b: u8|
                        spec_has_root(e) && spec_node_has(spec_root(e), b) implies spec_table_code(
                        t,
                        b,
                    ) is Some by {
                        let k = choose|k: int|
                            0 <= k < spec_leaves(n).len() && spec_leaves(n)[k] == b;
                        assert(t[k].0 == b);
                        lemma_table_code_exists(t, b);
                    }
                },
            }
        },
    }
}

/// A copy of a bit string.
fn clone_bits(v: &Vec<bool>) -> (r: Vec<bool>)
    ensures
        r@ == v@,
{
    let mut out: Vec<bool> = Vec::new();
    let n = v.len();
    let mut i: usize = 0;
    while i < n
        invariant
            n == v@.len(),
            i <= n,
            out@ == v@.take(i as int),
        decreases n - i,
    {
        out.push(v[i]);
        proof {
            assert(out@ =~= v@.take(i + 1));
        }
        i = i + 1;
    }
    proof {
        assert(v@.take(n as int) =~= v@);
    }
    out
}

/// Depth-first search from a node: left descent records a zero bit, right
/// descent a one bit; each leaf records its accumulated bit sequence.
fn traverse(node: &HuffmanNode, prefix: Vec<bool>, codes: &mut Vec<(u8, Vec<bool>)>)
    ensures
        spec_table_view(final(codes)@) == spec_table_view(old(codes)@) + spec_entries(
            *node,
            prefix@,
        ),
    decreases *node,
{
    match node {
        HuffmanNode::Leaf { byte, .. } => {
            let ghost before = codes@;
            let ghost pre = prefix@;
            codes.push((*byte, prefix));
            proof {
                assert(spec_table_view(codes@) =~= spec_table_view(before) + spec_entries(
                    *node,
                    pre,
                ));
            }
        },
        HuffmanNode::Internal { left, right, .. } => {
            let ghost pre = prefix@;
            let mut left_prefix = clone_bits(&prefix);
            left_prefix.push(false);
            traverse(left, left_prefix, codes);
            let mut right_prefix = prefix;
            right_prefix.push(true);
            traverse(right, right_prefix, codes);
            proof {
                assert(spec_table_view(codes@) =~= spec_table_view(old(codes)@) + spec_entries(
                    *node,
                    pre,
                ));
            }
        },
    }
}

/// The code for one byte, if the table has one.
fn find_code(codes: &Vec<(u8, Vec<bool>)>, b: u8) -> (r: Option<&Vec<bool>>)
    ensures
        match spec_table_code(spec_table_view(codes@), b) {
            Some(c) => r is Some && r->0@ == c,
            None => r is None,
        },
{
    let ghost tv = spec_table_view(codes@);
    let n = codes.len();
    let mut i: usize = 0;
    proof {
        assert(tv.skip(0) =~= tv);
    }
    while i < n
        invariant
            n == codes@.len(),
            i <= n,
            tv == spec_table_view(codes@),
            spec_table_code(tv, b) == spec_table_code(tv.skip(i as int), b),
        decreases n - i,
    {
        proof {
            let tail = tv.skip(i as int);
            assert(tail[0] == tv[i as int]);
            assert(tail.drop_first() =~= tv.skip(i + 1));
        }
        if codes[i].0 == b {
            return Some(&codes[i].1);
        }
        i = i + 1;
    }
    proof {
        assert(tv.skip(n as int) =~= Seq::<(u8, Seq<bool>)>::empty());
    }
    None
}

/// Two bit strings hold the same bits.
fn bits_eq(a: &Vec<bool>, b: &Vec<bool>) -> (r: bool)
    ensures
        r <==> a@ == b@,
{
    if a.len() != b.len() {
        return false;
    }
    let n = a.len();
    let mut i: usize = 0;
    while i < n
        invariant
            n == a@.len(),
            n == b@.len(),
            i <= n,
            forall|j: int| 0 <= j < i ==> a@[j] == b@[j],
        decreases n - i,
    {
        if a[i] != b[i] {
            return false;
        }
        i = i + 1;
    }
    proof {
        assert(a@ =~= b@);
    }
    true
}

/// The byte whose code is exactly `c`, if the table has one.
fn find_byte(codes: &Vec<(u8, Vec<bool>)>, c: &Vec<bool>) -> (r: Option<u8>)
    ensures
        r == spec_table_byte(spec_table_view(codes@), c@),
{
    let ghost tv = spec_table_view(codes@);
    let n = codes.len();
    let mut i: usize = 0;
    proof {
        assert(tv.skip(0) =~= tv);
    }
    while i < n
        invariant
            n == codes@.len(),
            i <= n,
            tv == spec_table_view(codes@),
            spec_table_byte(tv, c@) == spec_table_byte(tv.skip(i as int), c@),
        decreases n - i,
    {
        proof {
            let tail = tv.skip(i as int);
            assert(tail[0] == tv[i as int]);
            assert(tail.drop_first() =~= tv.skip(i + 1));
        }
        if bits_eq(&codes[i].1, c) {
            return Some(codes[i].0);
        }
        i = i + 1;
    }
    proof {
        assert(tv.skip(n as int) =~= Seq::<(u8, Seq<bool>)>::empty());
    }
    None
}

/// `payload` is the packed encoding of `orig` under the table `t`, whose
/// length is recorded as `olen`.
pub open spec fn spec_encodes(
    t: Seq<(u8, Seq<bool>)>,
    orig: Seq<u8>,
    payload: Seq<u8>,
    olen: int,
) -> bool {
    &&& spec_wf_table(t)
    &&& spec_covers(t, orig)
    &&& orig.len() == olen
    &&& payload == spec_bytes_of_bits(spec_concat_codes(t, orig))
}

/// Greedy decoding: walk the bit stream accumulating bits until they match a
/// code, emit that code's byte, and stop once the recorded length is
/// reached. Prefix-freeness makes the first match the right one.
fn decode_data_direct(codes: &Vec<(u8, Vec<bool>)>, encoded_data: &[u8], original_len: usize) -> (r:
    Vec<u8>)
    ensures
        forall|orig: Seq<u8>|
            #[trigger] spec_encodes(spec_table_view(codes@), orig, encoded_data@, original_len as int)
                ==> r@ == orig,
{
    let ghost t = spec_table_view(codes@);
    let bits = bits_from_bytes(encoded_data);
    let mut result: Vec<u8> = Vec::new();
    let mut buffer: Vec<bool> = Vec::new();
    let n = bits.len();
    let mut k: usize = 0;
    proof {
        assert forall|orig: Seq<u8>|
            #[trigger] spec_encodes(t, orig, encoded_data@, original_len as int) implies {
            &&& result@.len() <= orig.len()
            &&& result@ == orig.take(result@.len() as int)
            &&& (result@.len() < orig.len() ==> {
                let c = spec_code_of(t, orig[result@.len() as int]);
                &&& buffer@.len() < c.len()
                &&& buffer@ == c.take(buffer@.len() as int)
                &&& k == spec_concat_codes(t, orig.take(result@.len() as int)).len()
                    + buffer@.len()
            })
        } by {
            assert(orig.take(0) =~= Seq::<u8>::empty());
            assert(result@ =~= orig.take(0));
            assert(spec_concat_codes(t, Seq::<u8>::empty()).len() == 0);
            if orig.len() > 0 {
                let b0 = orig[0];
                let c0 = spec_code_of(t, b0);
                lemma_table_code_index(t, b0);
                let e0 = choose|e0: int|
                    0 <= e0 < t.len() && (#[trigger] t[e0]).0 == b0 && t[e0].1 == c0;
                assert(c0.len() >= 1);
                assert(buffer@ =~= c0.take(0));
            }
        }
    }
    while k < n && result.len() < original_len
        invariant
            n == bits@.len(),
            bits@ == spec_bits_of_bytes(encoded_data@),
            t == spec_table_view(codes@),
            k <= n,
            forall|orig: Seq<u8>|
                #[trigger] spec_encodes(t, orig, encoded_data@, original_len as int) ==> {
                    &&& result@.len() <= orig.len()
                    &&& result@ == orig.take(result@.len() as int)
                    &&& (result@.len() < orig.len() ==> {
                        let c = spec_code_of(t, orig[result@.len() as int]);
                        &&& buffer@.len() < c.len()
                        &&& buffer@ == c.take(buffer@.len() as int)
                        &&& k == spec_concat_codes(t, orig.take(result@.len() as int)).len()
                            + buffer@.len()
                    })
                },
        decreases n - k,
    {
        let ghost buf0 = buffer@;
        let ghost res0 = result@;
        let ghost k0 = k as int;
        let bit = bits[k];
        buffer.push(bit);
        k = k + 1;
        let ghost pushed = buffer@;
        let matched = find_byte(codes, &buffer);
        match matched {
            Some(byte) => {
                result.push(byte);
                buffer.clear();
            },
            None => {},
        }
        proof {
            assert forall|orig: Seq<u8>|
                #[trigger] spec_encodes(t, orig, encoded_data@, original_len as int) implies {
                &&& result@.len() <= orig.len()
                &&& result@ == orig.take(result@.len() as int)
                &&& (result@.len() < orig.len() ==> {
                    let c2 = spec_code_of(t, orig[result@.len() as int]);
                    &&& buffer@.len() < c2.len()
                    &&& buffer@ == c2.take(buffer@.len() as int)
                    &&& k == spec_concat_codes(t, orig.take(result@.len() as int)).len()
                        + buffer@.len()
                })
            } by {
                let m = res0.len() as int;
                assert(m < orig.len());
                let b = orig[m];
                let c = spec_code_of(t, b);
                lemma_code_round_trip(t, b);
                lemma_table_code_index(t, b);
                let ei = choose|ei: int|
                    0 <= ei < t.len() && (#[trigger] t[ei]).0 == b && t[ei].1 == c;
                // Locate the consumed bit inside the coded stream.
                lemma_concat_codes_split(t, orig, m + 1);
                assert(orig.take(m + 1) =~= orig.take(m).push(orig[m]));
                lemma_concat_codes_snoc(t, orig.take(m), orig[m]);
                let done = spec_concat_codes(t, orig.take(m));
                let all = spec_concat_codes(t, orig);
                assert(all == (done + c) + spec_concat_codes(t, orig.skip(m + 1)));
                assert(all.len() >= done.len() + c.len());
                lemma_bits_of_bytes_of_bits(all);
                assert(bits@ == spec_zero_pad(all));
                assert(k0 == done.len() + buf0.len());
                assert(k0 < all.len());
                assert(bits@[k0] == all[k0]);
                assert(all[k0] == (done + c)[k0]);
                assert(all[k0] == c[buf0.len() as int]);
                assert(bit == c[buf0.len() as int]);
                assert(pushed =~= c.take(buf0.len() as int + 1));
                if buf0.len() + 1 == c.len() {
                    assert(pushed =~= c);
                    assert(spec_table_byte(t, pushed) == Some(b));
                    assert(matched == Some(b));
                    assert(result@ == res0.push(b));
                    assert(result@ =~= orig.take(m + 1));
                    assert(result@.len() == m + 1);
                    if m + 1 < orig.len() {
                        let b2 = orig[m + 1];
                        let c2 = spec_code_of(t, b2);
                        lemma_table_code_index(t, b2);
                        let e2 = choose|e2: int|
                            0 <= e2 < t.len() && (#[trigger] t[e2]).0 == b2 && t[e2].1 == c2;
                        assert(c2.len() >= 1);
                        assert(buffer@ =~= c2.take(0));
                        assert(spec_concat_codes(t, orig.take(m + 1)) == done + c);
                        assert(k == done.len() + c.len());
                    }
                } else {
                    assert(pushed.len() < c.len());
                    assert(c.take(buf0.len() as int + 1).len() == buf0.len() + 1);
                    assert(c.take(pushed.len() as int).take(pushed.len() as int) =~= c.take(
                        pushed.len() as int,
                    ));
                    assert(spec_is_prefix(pushed, t[ei].1));
                    lemma_no_proper_prefix_is_code(t, ei, pushed);
                    assert(matched is None);
                    assert(result@ == res0);
                    assert(buffer@ == pushed);
                    assert(k == done.len() + pushed.len());
                }
            }
        }
    }
    proof {
        assert forall|orig: Seq<u8>|
            #[trigger] spec_encodes(t, orig, encoded_data@, original_len as int) implies result@
            == orig by {
            let m = result@.len() as int;
            if m == orig.len() {
                assert(result@ =~= orig);
            } else {
                // The loop can only have stopped for want of bits, yet the
                // coded stream still holds the rest of the current code.
                assert(result@.len() < original_len);
                assert(k == n);
                let b = orig[m];
                let c = spec_code_of(t, b);
                lemma_concat_codes_split(t, orig, m + 1);
                assert(orig.take(m + 1) =~= orig.take(m).push(orig[m]));
                lemma_concat_codes_snoc(t, orig.take(m), orig[m]);
                let done = spec_concat_codes(t, orig.take(m));
                let all = spec_concat_codes(t, orig);
                assert(all.len() >= done.len() + c.len());
                lemma_bits_of_bytes_of_bits(all);
                assert(bits@ == spec_zero_pad(all));
                assert(n >= all.len());
                assert(k < n);
                assert(false);
            }
        }
    }
    result
}

/// A byte taken from a buffer occurs in it.
proof fn lemma_count_positive(s: Seq<u8>, i: int)
    requires
        0 <= i < s.len(),
    ensures
        spec_count(s, s[i]) > 0,
    decreases s.len(),
{
    if i < s.len() - 1 {
        lemma_count_positive(s.drop_last(), i);
        assert(s.drop_last()[i] == s[i]);
    }
}

impl HuffmanEncoder {
    /// The code table of this encoder's tree; a lone leaf gets the one-bit
    /// code `0` so that single-byte inputs round-trip.
    fn generate_codes(&self) -> (r: Vec<(u8, Vec<bool>)>)
        ensures
            spec_table_view(r@) == spec_table_of(*self),
    {
        let mut codes: Vec<(u8, Vec<bool>)> = Vec::new();
        match &self.root {
            None => {
                proof {
                    assert(spec_table_view(codes@) =~= spec_table_of(*self));
                }
                codes
            },
            Some(boxed) => {
                match &**boxed {
                    HuffmanNode::Leaf { byte, .. } => {
                        let mut code: Vec<bool> = Vec::new();
                        code.push(false);
                        let ghost cv = code@;
                        codes.push((*byte, code));
                        proof {
                            assert(cv =~= seq![false]);
                            assert(spec_table_view(codes@) =~= spec_table_of(*self));
                        }
                        codes
                    },
                    HuffmanNode::Internal { .. } => {
                        let prefix: Vec<bool> = Vec::new();
                        proof {
                            assert(spec_table_view(codes@) =~= Seq::<(u8, Seq<bool>)>::empty());
                        }
                        traverse(&**boxed, prefix, &mut codes);
                        proof {
                            assert(spec_table_view(codes@) =~= spec_table_of(*self));
                        }
                        codes
                    },
                }
            },
        }
    }

    /// Replaces each input byte by its code and packs the resulting bit
    /// stream into bytes; also returns the table used.
    pub fn encode_data(&self, vocabulary: &Vec<u8>) -> (r: (Vec<(u8, Vec<bool>)>, Vec<u8>))
        requires
            forall|i: int|
                0 <= i < vocabulary@.len() ==> spec_table_code(
                    spec_table_of(*self),
                    #[trigger] vocabulary@[i],
                ) is Some,
        ensures
            spec_table_view(r.0@) == spec_table_of(*self),
            r.1@ == spec_bytes_of_bits(spec_concat_codes(spec_table_of(*self), vocabulary@)),
    {
        let codes = self.generate_codes();
        let ghost tv = spec_table_of(*self);
        let mut bit_buffer: Vec<bool> = Vec::new();
        let n = vocabulary.len();
        let mut i: usize = 0;
        proof {
            assert(vocabulary@.take(0) =~= Seq::<u8>::empty());
            assert(bit_buffer@ =~= spec_concat_codes(tv, vocabulary@.take(0)));
        }
        while i < n
            invariant
                n == vocabulary@.len(),
                i <= n,
                tv == spec_table_view(codes@),
                forall|q: int|
                    0 <= q < vocabulary@.len() ==> spec_table_code(
                        tv,
                        #[trigger] vocabulary@[q],
                    ) is Some,
                bit_buffer@ == spec_concat_codes(tv, vocabulary@.take(i as int)),
            decreases n - i,
        {
            let byte = vocabulary[i];
            match find_code(&codes, byte) {
                Some(code) => {
                    let m = code.len();
                    let ghost before = bit_buffer@;
                    let mut q: usize = 0;
                    while q < m
                        invariant
                            m == code@.len(),
                            q <= m,
                            bit_buffer@ == before + code@.take(q as int),
                        decreases m - q,
                    {
                        bit_buffer.push(code[q]);
                        proof {
                            assert(bit_buffer@ =~= before + code@.take(q + 1));
                        }
                        q = q + 1;
                    }
                    proof {
                        assert(code@.take(m as int) =~= code@);
                        assert(vocabulary@.take(i + 1) =~= vocabulary@.take(i as int).push(byte));
                        lemma_concat_codes_snoc(tv, vocabulary@.take(i as int), byte);
                        assert(bit_buffer@ =~= spec_concat_codes(tv, vocabulary@.take(i + 1)));
                    }
                },
                None => {
                    proof {
                        assert(false);
                    }
                },
            }
            i = i + 1;
        }
        proof {
            assert(vocabulary@.take(n as int) =~= vocabulary@);
        }
        let encoded_bytes = bytes_from_bits(bit_buffer.as_slice());
        (codes, encoded_bytes)
    }

    /// Decodes a packed bit stream against this encoder's code table,
    /// stopping at the recorded original length.
    pub fn decode_data(&self, encoded: &Vec<u8>, original_len: usize) -> (r: Vec<u8>)
        ensures
            forall|orig: Seq<u8>|
                #[trigger] spec_encodes(spec_table_of(*self), orig, encoded@, original_len as int)
                    ==> r@ == orig,
    {
        let codes = self.generate_codes();
        decode_data_direct(&codes, encoded.as_slice(), original_len)
    }
}

impl CodecFunctions for HuffmanEncoder {
    open spec fn spec_keyed() -> bool {
        false
    }

    open spec fn spec_valid_encoding(enc: Seq<u8>, orig: Seq<u8>, key: Option<i128>) -> bool {
        exists|t: Seq<(u8, Seq<bool>)>|
            {
                &&& #[trigger] spec_wf_table(t)
                &&& spec_covers(t, orig)
                &&& orig.len() < 0x1_0000_0000
                &&& enc == spec_header(
                    t,
                    orig.len() as u32,
                    spec_bytes_of_bits(spec_concat_codes(t, orig)),
                )
            }
    }

    open spec fn spec_encode_err(data: Seq<u8>, key: Option<i128>) -> Option<CodecError> {
        if data.len() >= 0x1_0000_0000 {
            Some(CodecError::InvalidData)
        } else {
            None
        }
    }

    open spec fn spec_decode_err(enc: Seq<u8>, key: Option<i128>) -> Option<CodecError> {
        if spec_parse_header(enc) is None {
            Some(CodecError::InvalidData)
        } else {
            None
        }
    }

    fn encode(data: &Vec<u8>, key: Option<&i128>) -> (r: Result<Vec<u8>, CodecError>)
        ensures
            data@.len() == 0 ==> r is Ok && r->Ok_0@ == seq![0u8, 0, 0, 0, 0, 0],
    {
        if data.len() > u32::MAX as usize {
            return Err(CodecError::InvalidData);
        }
        let frequencies = Self::obtain_frequencies(data);
        let encoder = Self::new(&frequencies);
        proof {
            lemma_table_of_ok(encoder);
            assert forall|i: int| 0 <= i < data@.len() implies spec_table_code(
                spec_table_of(encoder),
                #[trigger] data@[i],
            ) is Some by {
                let b = data@[i];
                lemma_count_positive(data@, i);
                assert(frequencies@[b as int] == spec_count(data@, b));
                assert(spec_has_root(encoder) && spec_node_has(spec_root(encoder), b));
            }
        }
        let (codes, encoded_data) = encoder.encode_data(data);
        proof {
            let tt = spec_table_of(encoder);
            assert(tt.len() == codes@.len());
            assert forall|i: int| 0 <= i < codes@.len() implies (
            #[trigger] codes@[i]).1@.len() <= 255 by {
                assert(tt[i] == (codes@[i].0, codes@[i].1@));
                assert(1 <= tt[i].1.len() <= 255);
            }
        }
        let result = Self::write_to_buffer(&codes, encoded_data.as_slice(), data.len());
        proof {
            let tt = spec_table_of(encoder);
            assert(spec_wf_table(tt));
            assert(result->Ok_0@ == spec_header(
                tt,
                data@.len() as u32,
                spec_bytes_of_bits(spec_concat_codes(tt, data@)),
            ));
            if data@.len() == 0 {
                // the header of nothing: count 0, length 0, no entries, no payload
                assert forall|b: u8| #![trigger frequencies@[b as int]]
                    frequencies@[b as int] == 0 by {
                    assert(spec_count(data@, b) == 0);
                }
                assert(!spec_has_root(encoder));
                assert(tt =~= Seq::<(u8, Seq<bool>)>::empty());
                assert(spec_concat_codes(tt, data@) =~= Seq::<bool>::empty());
                assert(spec_bytes_of_bits(Seq::<bool>::empty()) =~= Seq::<u8>::empty());
                assert(spec_entries_bytes(tt) =~= Seq::<u8>::empty());
                assert(spec_be32(0u32) =~= seq![0u8, 0, 0, 0]);
                assert(result->Ok_0@ =~= seq![0u8, 0, 0, 0, 0, 0]);
            }
        }
        result
    }

    fn decode(encoded_data: &Vec<u8>, key: Option<&i128>) -> (r: Result<Vec<u8>, CodecError>) {
        match Self::read_from_buffer(encoded_data.as_slice()) {
            Err(e) => {
                proof {
                    assert forall|orig: Seq<u8>|
                        #[trigger] Self::spec_valid_encoding(
                            encoded_data@,
                            orig,
                            view_key(key),
                        ) implies false by {
                        let tt = choose|t: Seq<(u8, Seq<bool>)>|
                            {
                                &&& #[trigger] spec_wf_table(t)
                                &&& spec_covers(t, orig)
                                &&& orig.len() < 0x1_0000_0000
                                &&& encoded_data@ == spec_header(
                                    t,
                                    orig.len() as u32,
                                    spec_bytes_of_bits(spec_concat_codes(t, orig)),
                                )
                            };
                        lemma_parse_header_inverts(
                            tt,
                            orig.len() as u32,
                            spec_bytes_of_bits(spec_concat_codes(tt, orig)),
                        );
                    }
                }
                Err(e)
            },
            Ok((codes, payload, original_len)) => {
                let result = decode_data_direct(&codes, payload.as_slice(), original_len);
                proof {
                    assert forall|orig: Seq<u8>|
                        #[trigger] Self::spec_valid_encoding(
                            encoded_data@,
                            orig,
                            view_key(key),
                        ) implies result@ == orig by {
                        let tt = choose|t: Seq<(u8, Seq<bool>)>|
                            {
                                &&& #[trigger] spec_wf_table(t)
                                &&& spec_covers(t, orig)
                                &&& orig.len() < 0x1_0000_0000
                                &&& encoded_data@ == spec_header(
                                    t,
                                    orig.len() as u32,
                                    spec_bytes_of_bits(spec_concat_codes(t, orig)),
                                )
                            };
                        lemma_parse_header_inverts(
                            tt,
                            orig.len() as u32,
                            spec_bytes_of_bits(spec_concat_codes(tt, orig)),
                        );
                        assert(spec_table_view(codes@) == tt);
                        assert(payload@ == spec_bytes_of_bits(spec_concat_codes(tt, orig)));
                        assert(original_len as int == orig.len());
                        assert(spec_encodes(
                            spec_table_view(codes@),
                            orig,
                            payload@,
                            original_len as int,
                        ));
                    }
                }
                Ok(result)
            },
        }
    }
}

} // verus!
