//! The engine's laws: the properties that hold of every generated code
//! table and of every encode/decode pair, proved against the
//! specifications that the executable functions are verified to meet.

use vstd::prelude::*;
use crate::huffman_compress::{
    all_symbols, count_of, first_min_idx, lemma_build_tree_leaves, lemma_codes_dom,
    lemma_count_le_len, lemma_count_positive, lemma_first_min_idx, lemma_leaves_sum,
    lemma_leaves_up_to_props, lemma_merge_step_len, lemma_prefix_count_total, merge_step, merged,
    second_min_orig_idx, spec_build_tree, spec_codes, spec_counts, spec_decode, spec_encode_bits,
    spec_huffman_tree, spec_leaves, spec_walk, sum_weights, HuffmanTreeNode,
};

verus! {

/// The code of every leaf below a node, relative to that node: the bare
/// root-to-leaf path, with no accumulated prefix and no degenerate
/// single-bit override.
pub open spec fn rel_codes(t: HuffmanTreeNode) -> Map<u8, Seq<bool>>
    decreases t,
{
    match t {
        HuffmanTreeNode::Leaf { symbol, .. } => Map::<u8, Seq<bool>>::empty().insert(
            symbol,
            Seq::empty(),
        ),
        HuffmanTreeNode::Internal { left, right, .. } => rel_codes(*left).map_values(
            |p: Seq<bool>| seq![false] + p,
        ).union_prefer_right(rel_codes(*right).map_values(|p: Seq<bool>| seq![true] + p)),
    }
}

/// The accumulated codes are exactly the relative codes behind the
/// accumulated prefix, except for a leaf root, whose code is the single
/// bit `false`.
proof fn lemma_codes_are_prefixed(t: HuffmanTreeNode, prefix: Seq<bool>)
    ensures
        spec_codes(t, prefix).dom() =~= rel_codes(t).dom(),
        forall|k: u8| #[trigger]
            rel_codes(t).dom().contains(k) ==> spec_codes(t, prefix)[k] == if t is Leaf
                && prefix.len() == 0 {
                seq![false]
            } else {
                prefix + rel_codes(t)[k]
            },
    decreases t,
{
    match t {
        HuffmanTreeNode::Leaf { symbol, .. } => {
            if prefix.len() != 0 {
                assert(prefix + Seq::<bool>::empty() =~= prefix);
            }
        },
        HuffmanTreeNode::Internal { left, right, .. } => {
            lemma_codes_are_prefixed(*left, prefix.push(false));
            lemma_codes_are_prefixed(*right, prefix.push(true));
            assert forall|k: u8| #[trigger] rel_codes(t).dom().contains(k) implies spec_codes(
                t,
                prefix,
            )[k] == prefix + rel_codes(t)[k] by {
                if rel_codes(*right).dom().contains(k) {
                    assert(spec_codes(t, prefix)[k] == spec_codes(*right, prefix.push(true))[k]);
                    assert(prefix.push(true) + rel_codes(*right)[k] =~= prefix + (seq![true]
                        + rel_codes(*right)[k]));
                    assert(rel_codes(t)[k] == seq![true] + rel_codes(*right)[k]);
                } else {
                    assert(rel_codes(*left).dom().contains(k));
                    assert(spec_codes(t, prefix)[k] == spec_codes(*left, prefix.push(false))[k]);
                    assert(prefix.push(false) + rel_codes(*left)[k] =~= prefix + (seq![false]
                        + rel_codes(*left)[k]));
                    assert(rel_codes(t)[k] == seq![false] + rel_codes(*left)[k]);
                }
            }
        },
    }
}

/// Walking a tree along a leaf's own code reaches exactly that leaf and
/// consumes exactly the code: whatever follows is handed back untouched.
proof fn lemma_walk_code(t: HuffmanTreeNode, s: u8, rest: Seq<bool>)
    requires
        rel_codes(t).dom().contains(s),
    ensures
        spec_walk(t, rel_codes(t)[s] + rest) == Some((s, rest)),
    decreases t,
{
    match t {
        HuffmanTreeNode::Leaf { symbol, .. } => {
            assert(rel_codes(t)[s] + rest =~= rest);
        },
        HuffmanTreeNode::Internal { left, right, .. } => {
            if rel_codes(*right).dom().contains(s) {
                let p = rel_codes(*right)[s];
                assert(rel_codes(t)[s] == seq![true] + p);
                assert((seq![true] + p + rest)[0] == true);
                assert((seq![true] + p + rest).drop_first() =~= p + rest);
                lemma_walk_code(*right, s, rest);
            } else {
                assert(rel_codes(*left).dom().contains(s));
                let p = rel_codes(*left)[s];
                assert(rel_codes(t)[s] == seq![false] + p);
                assert((seq![false] + p + rest)[0] == false);
                assert((seq![false] + p + rest).drop_first() =~= p + rest);
                lemma_walk_code(*left, s, rest);
            }
        },
    }
}

proof fn lemma_cons_prefix(c: bool, p: Seq<bool>, d: bool, q: Seq<bool>)
    ensures
        (seq![c] + p).is_prefix_of(seq![d] + q) ==> c == d && p.is_prefix_of(q),
{
    if (seq![c] + p).is_prefix_of(seq![d] + q) {
        assert((seq![c] + p)[0] == (seq![d] + q).subrange(0, (seq![c] + p).len() as int)[0]);
        assert(p =~= (seq![d] + q).subrange(0, (seq![c] + p).len() as int).drop_first());
        assert(p =~= q.subrange(0, p.len() as int));
    }
}

/// Every code under a node is at least one edge long once the node has
/// children.
proof fn lemma_rel_codes_nonempty(t: HuffmanTreeNode)
    ensures
        forall|k: u8| #[trigger]
            rel_codes(t).dom().contains(k) ==> rel_codes(t)[k].len() >= (if t is Internal {
                1int
            } else {
                0int
            }),
{
    match t {
        HuffmanTreeNode::Leaf { .. } => {},
        HuffmanTreeNode::Internal { left, right, .. } => {
            assert forall|k: u8| #[trigger] rel_codes(t).dom().contains(k) implies rel_codes(
                t,
            )[k].len() >= 1 by {
                if rel_codes(*right).dom().contains(k) {
                    assert(rel_codes(t)[k] == seq![true] + rel_codes(*right)[k]);
                } else {
                    assert(rel_codes(*left).dom().contains(k));
                    assert(rel_codes(t)[k] == seq![false] + rel_codes(*left)[k]);
                }
            }
        },
    }
}

proof fn lemma_rel_prefix_free(t: HuffmanTreeNode)
    ensures
        forall|a: u8, b: u8|
            #![trigger rel_codes(t)[a], rel_codes(t)[b]]
            rel_codes(t).dom().contains(a) && rel_codes(t).dom().contains(b) && a != b
                ==> !rel_codes(t)[a].is_prefix_of(rel_codes(t)[b]),
    decreases t,
{
    match t {
        HuffmanTreeNode::Leaf { .. } => {},
        HuffmanTreeNode::Internal { left, right, .. } => {
            lemma_rel_prefix_free(*left);
            lemma_rel_prefix_free(*right);
            let m = rel_codes(t);
            assert forall|a: u8, b: u8|
                #![trigger m[a], m[b]]
                m.dom().contains(a) && m.dom().contains(b) && a != b implies !m[a].is_prefix_of(
                m[b],
            ) by {
                let ml = rel_codes(*left);
                let mr = rel_codes(*right);
                let ca = if mr.dom().contains(a) {
                    true
                } else {
                    false
                };
                let cb = if mr.dom().contains(b) {
                    true
                } else {
                    false
                };
                let pa = if ca {
                    mr[a]
                } else {
                    ml[a]
                };
                let pb = if cb {
                    mr[b]
                } else {
                    ml[b]
                };
                assert(m[a] == seq![ca] + pa);
                assert(m[b] == seq![cb] + pb);
                lemma_cons_prefix(ca, pa, cb, pb);
            }
        },
    }
}

/// Prefix-free property: in a generated code table, no symbol's code is
/// a prefix of a different symbol's code, so decoding is unambiguous.
pub proof fn lemma_prefix_free(t: HuffmanTreeNode)
    ensures
        forall|a: u8, b: u8|
            #![trigger spec_codes(t, Seq::<bool>::empty())[a], spec_codes(t, Seq::<bool>::empty())[b]]
            spec_codes(t, Seq::<bool>::empty()).dom().contains(a) && spec_codes(
                t,
                Seq::<bool>::empty(),
            ).dom().contains(b) && a != b ==> !spec_codes(t, Seq::<bool>::empty())[a].is_prefix_of(
                spec_codes(t, Seq::<bool>::empty())[b],
            ),
{
    let m = spec_codes(t, Seq::<bool>::empty());
    lemma_codes_are_prefixed(t, Seq::<bool>::empty());
    lemma_rel_prefix_free(t);
    assert forall|a: u8, b: u8|
        #![trigger m[a], m[b]]
        m.dom().contains(a) && m.dom().contains(b) && a != b implies !m[a].is_prefix_of(m[b]) by {
        if t is Internal {
            assert(Seq::<bool>::empty() + rel_codes(t)[a] =~= rel_codes(t)[a]);
            assert(Seq::<bool>::empty() + rel_codes(t)[b] =~= rel_codes(t)[b]);
        }
    }
}

/// Every symbol of a non-empty input has a leaf, hence a code, in the
/// tree the engine derives from that input.
proof fn lemma_input_symbols_in_tree(input: Seq<u8>)
    requires
        1 <= input.len() <= u64::MAX,
    ensures
        spec_leaves(input).len() >= 1,
        forall|i: int|
            0 <= i < input.len() ==> #[trigger] spec_huffman_tree(input).leaf_symbols().contains(
                input[i],
            ),
{
    let counts = spec_counts(input);
    lemma_leaves_up_to_props(counts, 256);
    assert forall|i: int| 0 <= i < input.len() implies #[trigger] all_symbols(
        spec_leaves(input),
    ).contains(input[i]) by {
        lemma_count_positive(input, i);
        lemma_count_le_len(input, input[i]);
    }
    if spec_leaves(input).len() == 0 {
        assert(all_symbols(spec_leaves(input)) =~= Set::<u8>::empty());
        assert(all_symbols(spec_leaves(input)).contains(input[0]));
        assert(false);
    }
    lemma_build_tree_leaves(spec_leaves(input));
}

/// Decoding inverts encoding, walk by walk, for a tree with at least one
/// internal node.
proof fn lemma_decode_encode_internal(t: HuffmanTreeNode, input: Seq<u8>)
    requires
        t is Internal,
        forall|i: int| 0 <= i < input.len() ==> #[trigger] rel_codes(t).dom().contains(input[i]),
    ensures
        spec_decode(t, spec_encode_bits(input, rel_codes(t))) == Some(input),
    decreases input.len(),
{
    let m = rel_codes(t);
    if input.len() == 0 {
        assert(spec_encode_bits(input, m) =~= Seq::<bool>::empty());
        assert(input =~= Seq::<u8>::empty());
    } else {
        let s0 = input[0];
        let rest = input.drop_first();
        assert forall|i: int| 0 <= i < rest.len() implies #[trigger] m.dom().contains(
            rest[i],
        ) by {
            assert(rest[i] == input[i + 1]);
        }
        lemma_decode_encode_internal(t, rest);
        lemma_rel_codes_nonempty(t);
        assert(m.dom().contains(s0));
        assert(m[s0].len() >= 1);
        let tail = spec_encode_bits(rest, m);
        let bits = spec_encode_bits(input, m);
        assert(bits == m[s0] + tail);
        assert(bits.len() > 0);
        lemma_walk_code(t, s0, tail);
        assert(spec_walk(t, bits) == Some((s0, tail)));
        assert(seq![s0] + rest =~= input);
    }
}

/// Over a single-symbol dictionary, the encoding of an input is one
/// `false` bit per input byte.
proof fn lemma_encode_single(input: Seq<u8>, m: Map<u8, Seq<bool>>, sym: u8)
    requires
        m.dom().contains(sym),
        m[sym] == seq![false],
        forall|i: int| 0 <= i < input.len() ==> input[i] == sym,
    ensures
        spec_encode_bits(input, m) =~= Seq::new(input.len(), |i: int| false),
    decreases input.len(),
{
    if input.len() > 0 {
        let rest = input.drop_first();
        assert forall|i: int| 0 <= i < rest.len() implies rest[i] == sym by {
            assert(rest[i] == input[i + 1]);
        }
        lemma_encode_single(rest, m, sym);
    }
}

/// Round-trip law: decoding an encoded non-empty byte sequence against
/// the tree that produced it yields the original sequence exactly.
pub proof fn lemma_round_trip(input: Seq<u8>)
    requires
        1 <= input.len() <= u64::MAX,
    ensures
        spec_decode(
            spec_huffman_tree(input),
            spec_encode_bits(
                input,
                spec_codes(spec_huffman_tree(input), Seq::<bool>::empty()),
            ),
        ) == Some(input),
{
    let t = spec_huffman_tree(input);
    let m = spec_codes(t, Seq::<bool>::empty());
    lemma_input_symbols_in_tree(input);
    lemma_codes_dom(t, Seq::<bool>::empty());
    lemma_codes_are_prefixed(t, Seq::<bool>::empty());
    match t {
        HuffmanTreeNode::Leaf { symbol, .. } => {
            assert forall|i: int| 0 <= i < input.len() implies input[i] == symbol by {
                assert(t.leaf_symbols().contains(input[i]));
            }
            assert(m.dom().contains(symbol));
            assert(m[symbol] == seq![false]);
            lemma_encode_single(input, m, symbol);
            let bits = spec_encode_bits(input, m);
            assert(spec_decode(t, bits) == Some(Seq::new(bits.len(), |i: int| symbol)));
            assert(Seq::new(bits.len(), |i: int| symbol) =~= input);
        },
        HuffmanTreeNode::Internal { .. } => {
            assert forall|k: u8| #[trigger] rel_codes(t).dom().contains(k) implies m[k]
                == rel_codes(t)[k] by {
                assert(Seq::<bool>::empty() + rel_codes(t)[k] =~= rel_codes(t)[k]);
            }
            assert(m =~= rel_codes(t));
            lemma_decode_encode_internal(t, input);
        },
    }
}

/// Tie-break stability: tree construction and code derivation are pure
/// functions of the insertion-ordered node sequence, so the same weighted
/// symbols inserted in the same order yield the same tree and the same
/// code table, on every run.
pub proof fn lemma_tie_break_stability(a: Seq<HuffmanTreeNode>, b: Seq<HuffmanTreeNode>)
    requires
        a =~= b,
        a.len() >= 1,
    ensures
        spec_build_tree(a) == spec_build_tree(b),
        spec_codes(spec_build_tree(a), Seq::<bool>::empty()) == spec_codes(
            spec_build_tree(b),
            Seq::<bool>::empty(),
        ),
{
    assert(a == b);
}

/// Walking a strict, non-empty shortening of a leaf's code strands the
/// walk at an internal node.
proof fn lemma_walk_proper_prefix(t: HuffmanTreeNode, s: u8, q: Seq<bool>)
    requires
        rel_codes(t).dom().contains(s),
        q.len() < rel_codes(t)[s].len(),
        q == rel_codes(t)[s].take(q.len() as int),
    ensures
        spec_walk(t, q) is None,
    decreases t,
{
    match t {
        HuffmanTreeNode::Leaf { .. } => {
            assert(rel_codes(t)[s].len() == 0);
        },
        HuffmanTreeNode::Internal { left, right, .. } => {
            if q.len() > 0 {
                if rel_codes(*right).dom().contains(s) {
                    let p = rel_codes(*right)[s];
                    assert(rel_codes(t)[s] == seq![true] + p);
                    assert(q[0] == true);
                    assert(q.drop_first() =~= p.take(q.len() - 1));
                    lemma_walk_proper_prefix(*right, s, q.drop_first());
                } else {
                    assert(rel_codes(*left).dom().contains(s));
                    let p = rel_codes(*left)[s];
                    assert(rel_codes(t)[s] == seq![false] + p);
                    assert(q[0] == false);
                    assert(q.drop_first() =~= p.take(q.len() - 1));
                    lemma_walk_proper_prefix(*left, s, q.drop_first());
                }
            }
        },
    }
}

proof fn lemma_encode_len_lower(input: Seq<u8>, m: Map<u8, Seq<bool>>)
    requires
        forall|i: int| 0 <= i < input.len() ==> #[trigger] m.dom().contains(input[i]),
        forall|k: u8| #[trigger] m.dom().contains(k) ==> m[k].len() >= 1,
    ensures
        spec_encode_bits(input, m).len() >= input.len(),
    decreases input.len(),
{
    if input.len() > 0 {
        let rest = input.drop_first();
        assert forall|i: int| 0 <= i < rest.len() implies #[trigger] m.dom().contains(
            rest[i],
        ) by {
            assert(rest[i] == input[i + 1]);
        }
        lemma_encode_len_lower(rest, m);
        assert(m.dom().contains(input[0]));
        assert(m[input[0]].len() >= 1);
    }
}

proof fn lemma_truncated_internal(t: HuffmanTreeNode, input: Seq<u8>)
    requires
        t is Internal,
        input.len() >= 1,
        forall|i: int| 0 <= i < input.len() ==> #[trigger] rel_codes(t).dom().contains(input[i]),
        rel_codes(t)[input.last()].len() >= 2,
    ensures
        spec_decode(
            t,
            spec_encode_bits(input, rel_codes(t)).take(
                spec_encode_bits(input, rel_codes(t)).len() - 1,
            ),
        ) is None,
    decreases input.len(),
{
    let m = rel_codes(t);
    let bits = spec_encode_bits(input, m);
    lemma_rel_codes_nonempty(t);
    if input.len() == 1 {
        let s0 = input[0];
        assert(input.last() == s0);
        let c = m[s0];
        assert(spec_encode_bits(input.drop_first(), m) =~= Seq::<bool>::empty());
        assert(bits =~= c);
        let q = bits.take(bits.len() - 1);
        assert(q =~= c.take(c.len() - 1));
        lemma_walk_proper_prefix(t, s0, q);
        assert(q.len() >= 1);
    } else {
        let s0 = input[0];
        let rest = input.drop_first();
        assert forall|i: int| 0 <= i < rest.len() implies #[trigger] m.dom().contains(
            rest[i],
        ) by {
            assert(rest[i] == input[i + 1]);
        }
        assert(rest.last() == input.last());
        lemma_encode_len_lower(rest, m);
        let c = m[s0];
        let tail = spec_encode_bits(rest, m);
        assert(bits == c + tail);
        assert(tail.len() >= 1);
        let q = bits.take(bits.len() - 1);
        let tq = tail.take(tail.len() - 1);
        assert(q =~= c + tq);
        lemma_walk_code(t, s0, tq);
        assert(q.len() > 0);
        lemma_truncated_internal(t, rest);
        assert(spec_walk(t, q) == Some((s0, tq)));
        assert(spec_decode(t, tq) is None);
    }
}

/// Truncation detection: cutting the final bit off an encoded stream
/// leaves the last symbol's walk stranded mid-tree, so decoding reports a
/// truncation instead of a shorter result.  This needs the last symbol's
/// code to be at least two bits: a one-bit final code leaves a stream
/// that still decodes cleanly, only one symbol shorter.
pub proof fn lemma_truncation_detected(input: Seq<u8>)
    requires
        1 <= input.len() <= u64::MAX,
        spec_codes(spec_huffman_tree(input), Seq::<bool>::empty())[input.last()].len() >= 2,
    ensures
        spec_decode(
            spec_huffman_tree(input),
            spec_encode_bits(
                input,
                spec_codes(spec_huffman_tree(input), Seq::<bool>::empty()),
            ).take(
                spec_encode_bits(
                    input,
                    spec_codes(spec_huffman_tree(input), Seq::<bool>::empty()),
                ).len() - 1,
            ),
        ) is None,
{
    let t = spec_huffman_tree(input);
    let m = spec_codes(t, Seq::<bool>::empty());
    lemma_input_symbols_in_tree(input);
    lemma_codes_dom(t, Seq::<bool>::empty());
    lemma_codes_are_prefixed(t, Seq::<bool>::empty());
    match t {
        HuffmanTreeNode::Leaf { symbol, .. } => {
            assert(t.leaf_symbols().contains(input.last()));
            assert(m[input.last()] == seq![false]);
            assert(false);
        },
        HuffmanTreeNode::Internal { .. } => {
            assert forall|k: u8| #[trigger] rel_codes(t).dom().contains(k) implies m[k]
                == rel_codes(t)[k] by {
                assert(Seq::<bool>::empty() + rel_codes(t)[k] =~= rel_codes(t)[k]);
            }
            assert(m =~= rel_codes(t));
            lemma_truncated_internal(t, input);
        },
    }
}


/// Exactly the symbols on a node's leaves have a relative code.
proof fn lemma_rel_codes_dom(t: HuffmanTreeNode)
    ensures
        rel_codes(t).dom() =~= t.leaf_symbols(),
{
    lemma_codes_are_prefixed(t, Seq::<bool>::empty());
    lemma_codes_dom(t, Seq::<bool>::empty());
}

/// No symbol sits on the leaves of two different nodes of the list.
pub open spec fn disjoint_syms(s: Seq<HuffmanTreeNode>) -> bool {
    forall|k: int, l: int, a: u8|
        #![trigger s[k].leaf_symbols().contains(a), s[l].leaf_symbols().contains(a)]
        0 <= k < l < s.len() ==> !(s[k].leaf_symbols().contains(a)
            && s[l].leaf_symbols().contains(a))
}

/// The position of the node whose leaves carry symbol `a`.
pub open spec fn sym_idx(s: Seq<HuffmanTreeNode>, a: u8) -> int
    decreases s.len(),
{
    if s.len() == 0 {
        0
    } else if s[0].leaf_symbols().contains(a) {
        0
    } else {
        1 + sym_idx(s.drop_first(), a)
    }
}

proof fn lemma_sym_idx(s: Seq<HuffmanTreeNode>, a: u8)
    requires
        all_symbols(s).contains(a),
    ensures
        0 <= sym_idx(s, a) < s.len(),
        s[sym_idx(s, a)].leaf_symbols().contains(a),
    decreases s.len(),
{
    if s.len() > 0 && !s[0].leaf_symbols().contains(a) {
        lemma_sym_idx(s.drop_first(), a);
    }
}

proof fn lemma_sym_idx_unique(s: Seq<HuffmanTreeNode>, a: u8, k: int)
    requires
        disjoint_syms(s),
        0 <= k < s.len(),
        s[k].leaf_symbols().contains(a),
    ensures
        k == sym_idx(s, a),
        all_symbols(s).contains(a),
    decreases s.len(),
{
    if k > 0 {
        assert forall|k2: int, l2: int, b: u8|
            #![trigger s.drop_first()[k2].leaf_symbols().contains(b), s.drop_first()[l2].leaf_symbols().contains(b)]
            0 <= k2 < l2 < s.drop_first().len() implies !(s.drop_first()[k2].leaf_symbols().contains(
            b,
        ) && s.drop_first()[l2].leaf_symbols().contains(b)) by {
            assert(s.drop_first()[k2] == s[k2 + 1]);
            assert(s.drop_first()[l2] == s[l2 + 1]);
        }
        lemma_sym_idx_unique(s.drop_first(), a, k - 1);
        assert(s.drop_first()[k - 1] == s[k]);
        if s[0].leaf_symbols().contains(a) {
            assert(false);
        }
    }
}



/// The position a surviving node moves to when the two extracted nodes
/// leave the list.
pub open spec fn survivor_idx(s: Seq<HuffmanTreeNode>, k: int) -> int {
    k - (if first_min_idx(s) < k {
        1int
    } else {
        0int
    }) - (if second_min_orig_idx(s) < k {
        1int
    } else {
        0int
    })
}

/// Where each node of the list stands after one merge step: the merged
/// node at the end, every survivor shifted past the two holes, and the
/// extracted nodes no lighter than anything left behind.
proof fn lemma_merge_step_index(s: Seq<HuffmanTreeNode>)
    requires
        s.len() >= 2,
    ensures
        merge_step(s).len() == s.len() - 1,
        0 <= first_min_idx(s) < s.len(),
        0 <= second_min_orig_idx(s) < s.len(),
        first_min_idx(s) != second_min_orig_idx(s),
        merge_step(s)[s.len() - 2] == merged(
            s[first_min_idx(s)],
            s[second_min_orig_idx(s)],
        ),
        forall|k: int|
            #![trigger survivor_idx(s, k)]
            0 <= k < s.len() && k != first_min_idx(s) && k != second_min_orig_idx(s) ==> {
                &&& 0 <= survivor_idx(s, k) < s.len() - 2
                &&& merge_step(s)[survivor_idx(s, k)] == s[k]
            },
        forall|k: int|
            0 <= k < s.len() && k != first_min_idx(s) && k != second_min_orig_idx(s)
                ==> #[trigger] s[k].spec_weight() >= s[second_min_orig_idx(s)].spec_weight(),
        s[first_min_idx(s)].spec_weight() <= s[second_min_orig_idx(s)].spec_weight(),
{
    let i = first_min_idx(s);
    let s1 = s.remove(i);
    let j = first_min_idx(s1);
    let jo = second_min_orig_idx(s);
    lemma_first_min_idx(s);
    lemma_first_min_idx(s1);
    assert(s1[j] == s[jo]);
    assert forall|k: int|
        0 <= k < s.len() && k != i && k != jo implies #[trigger] s[k].spec_weight()
        >= s[jo].spec_weight() by {
        let k1 = if k < i {
            k
        } else {
            k - 1
        };
        assert(s1[k1] == s[k]);
    }
    assert forall|k: int|
        #![trigger survivor_idx(s, k)]
        0 <= k < s.len() && k != i && k != jo implies {
        &&& 0 <= survivor_idx(s, k) < s.len() - 2
        &&& merge_step(s)[survivor_idx(s, k)] == s[k]
    } by {
        let k1 = if k < i {
            k
        } else {
            k - 1
        };
        assert(s1[k1] == s[k]);
        let k2 = if k1 < j {
            k1
        } else {
            k1 - 1
        };
        assert(k1 != j);
        assert(s1.remove(j)[k2] == s1[k1]);
        assert(k2 == survivor_idx(s, k));
        assert(merge_step(s)[k2] == s1.remove(j)[k2]);
    }
}


/// Merging prepends one edge to every code inside the two merged nodes.
proof fn lemma_merged_code_len(n1: HuffmanTreeNode, n2: HuffmanTreeNode, a: u8)
    requires
        n1.leaf_symbols().contains(a) || n2.leaf_symbols().contains(a),
    ensures
        rel_codes(merged(n1, n2)).dom().contains(a),
        n2.leaf_symbols().contains(a) ==> rel_codes(merged(n1, n2))[a] == seq![true] + rel_codes(
            n2,
        )[a],
        n1.leaf_symbols().contains(a) && !n2.leaf_symbols().contains(a) ==> rel_codes(
            merged(n1, n2),
        )[a] == seq![false] + rel_codes(n1)[a],
{
    lemma_rel_codes_dom(n1);
    lemma_rel_codes_dom(n2);
    lemma_rel_codes_dom(merged(n1, n2));
}

/// How far below the final root a node's own subtree hangs, measured at
/// one of its symbols: the symbol's final code length minus its code
/// length inside the node.
pub open spec fn hang_depth(s: Seq<HuffmanTreeNode>, a: u8) -> int {
    rel_codes(spec_build_tree(s))[a].len() - rel_codes(s[sym_idx(s, a)])[a].len()
}

/// One merge step keeps the symbols and their owners' disjointness, moves
/// the two extracted nodes' symbols into the merged node one level
/// deeper, and leaves every surviving node's symbols at their depth.
proof fn lemma_hang_transfer(s: Seq<HuffmanTreeNode>, a: u8)
    requires
        s.len() >= 2,
        sum_weights(s) <= u64::MAX,
        disjoint_syms(s),
        all_symbols(s).contains(a),
    ensures
        disjoint_syms(merge_step(s)),
        all_symbols(merge_step(s)) =~= all_symbols(s),
        sum_weights(merge_step(s)) == sum_weights(s),
        sym_idx(s, a) == first_min_idx(s) || sym_idx(s, a) == second_min_orig_idx(s) ==> {
            &&& sym_idx(merge_step(s), a) == s.len() - 2
            &&& hang_depth(s, a) == hang_depth(merge_step(s), a) + 1
            &&& merge_step(s)[sym_idx(merge_step(s), a)].spec_weight() == s[first_min_idx(
                s,
            )].spec_weight() + s[second_min_orig_idx(s)].spec_weight()
        },
        sym_idx(s, a) != first_min_idx(s) && sym_idx(s, a) != second_min_orig_idx(s) ==> {
            &&& sym_idx(merge_step(s), a) == survivor_idx(s, sym_idx(s, a))
            &&& merge_step(s)[sym_idx(merge_step(s), a)] == s[sym_idx(s, a)]
            &&& hang_depth(s, a) == hang_depth(merge_step(s), a)
        },
{
    let i = first_min_idx(s);
    let jo = second_min_orig_idx(s);
    let s2 = merge_step(s);
    let m = merged(s[i], s[jo]);
    lemma_merge_step_index(s);
    lemma_sym_idx(s, a);
    let k = sym_idx(s, a);

    // the merged node owns exactly the two extracted nodes' symbols
    lemma_rel_codes_dom(s[i]);
    lemma_rel_codes_dom(s[jo]);
    lemma_rel_codes_dom(m);
    assert(m.leaf_symbols() =~= s[i].leaf_symbols().union(s[jo].leaf_symbols()));

    // disjointness carries over to the merged list
    assert forall|k1: int, l1: int, b: u8|
        #![trigger s2[k1].leaf_symbols().contains(b), s2[l1].leaf_symbols().contains(b)]
        0 <= k1 < l1 < s2.len() implies !(s2[k1].leaf_symbols().contains(b)
        && s2[l1].leaf_symbols().contains(b)) by {
        if s2[k1].leaf_symbols().contains(b) && s2[l1].leaf_symbols().contains(b) {
            let ok = choose|ok: int|
                0 <= ok < s.len() && ok != i && ok != jo && survivor_idx(s, ok) == k1
                    && #[trigger] s[ok] == s2[k1];
            if l1 == s.len() - 2 {
                // l1 is the merged node; k1 is a survivor
                assert(exists|ok: int|
                    0 <= ok < s.len() && ok != i && ok != jo && survivor_idx(s, ok) == k1
                        && #[trigger] s[ok] == s2[k1]) by {
                    lemma_survivor_exists(s, k1);
                }
                assert(s[ok].leaf_symbols().contains(b));
                if s[i].leaf_symbols().contains(b) {
                    assert(false);
                } else {
                    assert(s[jo].leaf_symbols().contains(b));
                    assert(false);
                }
            } else {
                assert(exists|ok: int|
                    0 <= ok < s.len() && ok != i && ok != jo && survivor_idx(s, ok) == k1
                        && #[trigger] s[ok] == s2[k1]) by {
                    lemma_survivor_exists(s, k1);
                }
                let ol = choose|ol: int|
                    0 <= ol < s.len() && ol != i && ol != jo && survivor_idx(s, ol) == l1
                        && #[trigger] s[ol] == s2[l1];
                assert(exists|ol: int|
                    0 <= ol < s.len() && ol != i && ol != jo && survivor_idx(s, ol) == l1
                        && #[trigger] s[ol] == s2[l1]) by {
                    lemma_survivor_exists(s, l1);
                }
                assert(ok != ol);
                assert(s[ok].leaf_symbols().contains(b) && s[ol].leaf_symbols().contains(b));
                assert(false);
            }
        }
    }

    // the symbols and the total weight of the list are unchanged
    crate::huffman_compress::lemma_merge_step_preserves_pub(s);
    assert(all_symbols(s2) =~= all_symbols(s));

    // the build result is unchanged, so only the node-local code varies
    assert(spec_build_tree(s2) == spec_build_tree(s));

    if k == i || k == jo {
        assert(m.leaf_symbols().contains(a));
        lemma_sym_idx_unique(s2, a, s.len() - 2);
        if s[jo].leaf_symbols().contains(a) {
            lemma_merged_code_len(s[i], s[jo], a);
            assert(rel_codes(m)[a].len() == rel_codes(s[jo])[a].len() + 1);
            assert(k == jo) by {
                if k == i {
                    assert(s[i].leaf_symbols().contains(a));
                    assert(false);
                }
            }
        } else {
            assert(k == i);
            assert(s[i].leaf_symbols().contains(a));
            lemma_merged_code_len(s[i], s[jo], a);
            assert(rel_codes(m)[a].len() == rel_codes(s[i])[a].len() + 1);
        }
    } else {
        let k2 = survivor_idx(s, k);
        assert(s2[k2] == s[k]);
        lemma_sym_idx_unique(s2, a, k2);
    }
}

/// Every position below the merged node's holds one of the old list's
/// surviving nodes.
proof fn lemma_survivor_exists(s: Seq<HuffmanTreeNode>, k2: int)
    requires
        s.len() >= 2,
        0 <= k2 < s.len() - 2,
    ensures
        exists|ok: int|
            0 <= ok < s.len() && ok != first_min_idx(s) && ok != second_min_orig_idx(s)
                && survivor_idx(s, ok) == k2 && #[trigger] s[ok] == merge_step(s)[k2],
{
    let i = first_min_idx(s);
    let jo = second_min_orig_idx(s);
    lemma_merge_step_index(s);
    let lo = if i < jo {
        i
    } else {
        jo
    };
    let hi = if i < jo {
        jo
    } else {
        i
    };
    let ok = if k2 < lo {
        k2
    } else if k2 + 1 < hi {
        k2 + 1
    } else {
        k2 + 2
    };
    assert(ok != i && ok != jo && 0 <= ok < s.len());
    assert(survivor_idx(s, ok) == k2);
    assert(s[ok] == merge_step(s)[k2]);
}


/// Two symbols on the same node's leaves hang at the same depth below
/// the final root.
proof fn lemma_hang_same_node(s: Seq<HuffmanTreeNode>, a: u8, b: u8)
    requires
        s.len() >= 1,
        sum_weights(s) <= u64::MAX,
        disjoint_syms(s),
        all_symbols(s).contains(a),
        all_symbols(s).contains(b),
        sym_idx(s, a) == sym_idx(s, b),
    ensures
        hang_depth(s, a) == hang_depth(s, b),
    decreases s.len(),
{
    lemma_sym_idx(s, a);
    lemma_sym_idx(s, b);
    if s.len() >= 2 {
        lemma_hang_transfer(s, a);
        lemma_hang_transfer(s, b);
        lemma_merge_step_len(s);
        lemma_hang_same_node(merge_step(s), a, b);
    } else {
        assert(sym_idx(s, a) == 0 && sym_idx(s, b) == 0);
        assert(spec_build_tree(s) == s[0]);
        assert(hang_depth(s, a) == 0);
        assert(hang_depth(s, b) == 0);
    }
}


/// After a merge, nothing in the list is lighter than half the merged
/// node: the merged node weighs two minima, and every survivor outweighs
/// the larger of them.
proof fn lemma_merged_is_light(s: Seq<HuffmanTreeNode>)
    requires
        s.len() >= 2,
        sum_weights(s) <= u64::MAX,
    ensures
        forall|k2: int|
            0 <= k2 < merge_step(s).len() ==> 2 * #[trigger] merge_step(s)[k2].spec_weight()
                >= merge_step(s)[s.len() - 2].spec_weight(),
{
    let i = first_min_idx(s);
    let jo = second_min_orig_idx(s);
    lemma_merge_step_index(s);
    crate::huffman_compress::lemma_merge_step_preserves_pub(s);
    let s2 = merge_step(s);
    assert(s2[s.len() - 2].spec_weight() == s[i].spec_weight() + s[jo].spec_weight());
    assert forall|k2: int| 0 <= k2 < s2.len() implies 2 * #[trigger] s2[k2].spec_weight()
        >= s2[s.len() - 2].spec_weight() by {
        if k2 < s.len() - 2 {
            lemma_survivor_exists(s, k2);
            let ok = choose|ok: int|
                0 <= ok < s.len() && ok != first_min_idx(s) && ok != second_min_orig_idx(s)
                    && survivor_idx(s, ok) == k2 && #[trigger] s[ok] == s2[k2];
            assert(s[ok].spec_weight() >= s[jo].spec_weight());
        }
    }
}

/// A strictly lighter node hangs at least as deep below the final root
/// as a strictly heavier one.
proof fn lemma_hang_monotone(s: Seq<HuffmanTreeNode>, a: u8, b: u8)
    requires
        s.len() >= 1,
        sum_weights(s) <= u64::MAX,
        disjoint_syms(s),
        all_symbols(s).contains(a),
        all_symbols(s).contains(b),
        s[sym_idx(s, a)].spec_weight() < s[sym_idx(s, b)].spec_weight(),
    ensures
        hang_depth(s, a) >= hang_depth(s, b),
    decreases s.len(),
{
    lemma_sym_idx(s, a);
    lemma_sym_idx(s, b);
    let ka = sym_idx(s, a);
    let kb = sym_idx(s, b);
    assert(s.len() >= 2);
    let i = first_min_idx(s);
    let jo = second_min_orig_idx(s);
    lemma_merge_step_index(s);
    lemma_hang_transfer(s, a);
    lemma_hang_transfer(s, b);
    let s2 = merge_step(s);
    let am = ka == i || ka == jo;
    let bm = kb == i || kb == jo;
    if am && bm {
        lemma_hang_same_node(s2, a, b);
    } else if am && !bm {
        lemma_merged_is_light(s);
        lemma_hang_bounded(s2, b, a);
    } else if !am && bm {
        assert(s[ka].spec_weight() >= s[jo].spec_weight());
        assert(s[kb].spec_weight() <= s[jo].spec_weight());
        assert(false);
    } else {
        lemma_hang_monotone(s2, a, b);
    }
}

/// Nothing hangs more than one level below a node that no list member
/// undercuts by more than half.
proof fn lemma_hang_bounded(s: Seq<HuffmanTreeNode>, a: u8, b: u8)
    requires
        s.len() >= 1,
        sum_weights(s) <= u64::MAX,
        disjoint_syms(s),
        all_symbols(s).contains(a),
        all_symbols(s).contains(b),
        forall|k: int|
            0 <= k < s.len() ==> 2 * #[trigger] s[k].spec_weight() >= s[sym_idx(
                s,
                b,
            )].spec_weight(),
    ensures
        hang_depth(s, a) <= hang_depth(s, b) + 1,
    decreases s.len(),
{
    lemma_sym_idx(s, a);
    lemma_sym_idx(s, b);
    let ka = sym_idx(s, a);
    let kb = sym_idx(s, b);
    if s.len() == 1 {
        assert(spec_build_tree(s) == s[0]);
        assert(hang_depth(s, a) == 0);
        assert(hang_depth(s, b) == 0);
    } else {
        let i = first_min_idx(s);
        let jo = second_min_orig_idx(s);
        lemma_merge_step_index(s);
        lemma_hang_transfer(s, a);
        lemma_hang_transfer(s, b);
        let s2 = merge_step(s);
        let am = ka == i || ka == jo;
        let bm = kb == i || kb == jo;
        if bm {
            if am {
                lemma_hang_same_node(s2, a, b);
            } else {
                lemma_merged_is_light(s);
                lemma_hang_bounded(s2, a, b);
            }
        } else {
            if am {
                let wm = s[i].spec_weight() + s[jo].spec_weight();
                assert(2 * s[i].spec_weight() >= s[kb].spec_weight());
                if wm > s[kb].spec_weight() {
                    lemma_hang_monotone(s2, b, a);
                } else {
                    assert(wm == s[kb].spec_weight());
                    assert(sym_idx(s2, b) < s.len() - 2);
                    assert(sym_idx(s2, a) == s.len() - 2);
                    lemma_hang_tie_order(s2, b, a);
                }
            } else {
                // the bound carries over to the merged list
                assert forall|k2: int|
                    0 <= k2 < s2.len() implies 2 * #[trigger] s2[k2].spec_weight() >= s2[sym_idx(
                    s2,
                    b,
                )].spec_weight() by {
                    if k2 == s.len() - 2 {
                        crate::huffman_compress::lemma_merge_step_preserves_pub(s);
                        assert(s2[s.len() - 2] == merged(s[i], s[jo]));
                        assert(s2[s.len() - 2].spec_weight() == s[i].spec_weight()
                            + s[jo].spec_weight());
                        assert(2 * s[i].spec_weight() >= s[kb].spec_weight());
                    } else {
                        lemma_survivor_exists(s, k2);
                        let ok = choose|ok: int|
                            0 <= ok < s.len() && ok != first_min_idx(s) && ok
                                != second_min_orig_idx(s) && survivor_idx(s, ok) == k2
                                && #[trigger] s[ok] == s2[k2];
                        assert(2 * s[ok].spec_weight() >= s[kb].spec_weight());
                    }
                }
                lemma_hang_bounded(s2, a, b);
            }
        }
    }
}

/// On equal weights the earlier node hangs at least as deep: the merge
/// loop extracts the earliest minima first.
proof fn lemma_hang_tie_order(s: Seq<HuffmanTreeNode>, a: u8, b: u8)
    requires
        s.len() >= 1,
        sum_weights(s) <= u64::MAX,
        disjoint_syms(s),
        all_symbols(s).contains(a),
        all_symbols(s).contains(b),
        s[sym_idx(s, a)].spec_weight() == s[sym_idx(s, b)].spec_weight(),
        sym_idx(s, a) < sym_idx(s, b),
    ensures
        hang_depth(s, a) >= hang_depth(s, b),
    decreases s.len(),
{
    lemma_sym_idx(s, a);
    lemma_sym_idx(s, b);
    let ka = sym_idx(s, a);
    let kb = sym_idx(s, b);
    assert(s.len() >= 2);
    let i = first_min_idx(s);
    let jo = second_min_orig_idx(s);
    lemma_merge_step_index(s);
    lemma_first_min_idx(s);
    lemma_hang_transfer(s, a);
    lemma_hang_transfer(s, b);
    let s2 = merge_step(s);
    let am = ka == i || ka == jo;
    let bm = kb == i || kb == jo;
    if am && bm {
        lemma_hang_same_node(s2, a, b);
    } else if am && !bm {
        lemma_merged_is_light(s);
        lemma_hang_bounded(s2, b, a);
    } else if !am && bm {
        if kb == i {
            // an equal weight before the first minimum is impossible
            assert(s[ka].spec_weight() > s[i].spec_weight());
            assert(false);
        } else {
            // an equal weight before the second minimum is impossible
            let s1 = s.remove(i);
            let j = first_min_idx(s1);
            lemma_first_min_idx(s1);
            let ka1 = if ka < i {
                ka
            } else {
                ka - 1
            };
            assert(s1[ka1] == s[ka]);
            assert(ka1 < j);
            assert(s1[ka1].spec_weight() > s1[j].spec_weight());
            assert(false);
        }
    } else {
        assert(survivor_idx(s, ka) < survivor_idx(s, kb));
        lemma_hang_tie_order(s2, a, b);
    }
}


/// Compression sanity: a symbol that occurs strictly less often than
/// another never receives a strictly shorter code, a direct consequence
/// of merging the lowest-weight nodes first.
pub proof fn lemma_code_length_monotone(input: Seq<u8>, a: u8, b: u8)
    requires
        1 <= input.len() <= u64::MAX,
        count_of(input, a) > 0,
        count_of(input, b) > 0,
        count_of(input, a) < count_of(input, b),
    ensures
        spec_codes(spec_huffman_tree(input), Seq::<bool>::empty()).dom().contains(a),
        spec_codes(spec_huffman_tree(input), Seq::<bool>::empty()).dom().contains(b),
        spec_codes(spec_huffman_tree(input), Seq::<bool>::empty())[a].len() >= spec_codes(
            spec_huffman_tree(input),
            Seq::<bool>::empty(),
        )[b].len(),
{
    let counts = spec_counts(input);
    let s = spec_leaves(input);
    let t = spec_huffman_tree(input);
    let m = spec_codes(t, Seq::<bool>::empty());
    lemma_leaves_up_to_props(counts, 256);
    lemma_count_le_len(input, a);
    lemma_count_le_len(input, b);
    assert(all_symbols(s).contains(a));
    assert(all_symbols(s).contains(b));

    // the leaf list is pairwise disjoint in symbols and light enough
    assert forall|k: int, l: int, c: u8|
        #![trigger s[k].leaf_symbols().contains(c), s[l].leaf_symbols().contains(c)]
        0 <= k < l < s.len() implies !(s[k].leaf_symbols().contains(c)
        && s[l].leaf_symbols().contains(c)) by {
        if s[k].leaf_symbols().contains(c) && s[l].leaf_symbols().contains(c) {
            assert(s[k]->Leaf_symbol == c && s[l]->Leaf_symbol == c);
        }
    }
    lemma_leaves_sum(input, 256);
    lemma_prefix_count_total(input);
    assert(sum_weights(s) == input.len());

    // the two symbols' nodes are the leaves weighted by their counts
    lemma_sym_idx(s, a);
    lemma_sym_idx(s, b);
    assert(s[sym_idx(s, a)] == (HuffmanTreeNode::Leaf {
        weight: counts[a as int],
        symbol: a,
    })) by {
        assert(s[sym_idx(s, a)]->Leaf_symbol == a);
    }
    assert(s[sym_idx(s, b)] == (HuffmanTreeNode::Leaf {
        weight: counts[b as int],
        symbol: b,
    })) by {
        assert(s[sym_idx(s, b)]->Leaf_symbol == b);
    }
    assert(s[sym_idx(s, a)].spec_weight() < s[sym_idx(s, b)].spec_weight());

    lemma_hang_monotone(s, a, b);

    // at a bare leaf the relative code is empty, so the hang depth is the
    // whole final code length
    assert(rel_codes(s[sym_idx(s, a)])[a].len() == 0) by {
        lemma_rel_codes_dom(s[sym_idx(s, a)]);
    }
    assert(rel_codes(s[sym_idx(s, b)])[b].len() == 0) by {
        lemma_rel_codes_dom(s[sym_idx(s, b)]);
    }

    // two distinct symbols force an internal root, where the generated
    // table is exactly the relative code map
    lemma_build_tree_leaves(s);
    lemma_codes_dom(t, Seq::<bool>::empty());
    lemma_codes_are_prefixed(t, Seq::<bool>::empty());
    assert(t.leaf_symbols().contains(a) && t.leaf_symbols().contains(b));
    match t {
        HuffmanTreeNode::Leaf { symbol, .. } => {
            assert(a == symbol && b == symbol);
            assert(false);
        },
        HuffmanTreeNode::Internal { .. } => {
            assert(m[a] == Seq::<bool>::empty() + rel_codes(t)[a]);
            assert(m[b] == Seq::<bool>::empty() + rel_codes(t)[b]);
            assert((Seq::<bool>::empty() + rel_codes(t)[a]).len() == rel_codes(t)[a].len());
            assert((Seq::<bool>::empty() + rel_codes(t)[b]).len() == rel_codes(t)[b].len());
        },
    }
}


proof fn lemma_count_uniform(input: Seq<u8>, sym: u8, c: u8)
    requires
        forall|i: int| 0 <= i < input.len() ==> input[i] == sym,
    ensures
        count_of(input, sym) == input.len(),
        c != sym ==> count_of(input, c) == 0,
    decreases input.len(),
{
    if input.len() > 0 {
        let rest = input.drop_last();
        assert forall|i: int| 0 <= i < rest.len() implies rest[i] == sym by {
            assert(rest[i] == input[i]);
        }
        lemma_count_uniform(rest, sym, c);
    }
}

/// Degenerate single-symbol case: a sequence over one distinct symbol
/// yields a tree that is a single leaf weighted by the sequence's length,
/// a code table mapping that symbol to the single bit `false`, and an
/// encoding of exactly one zero bit per input byte.
pub proof fn lemma_degenerate_single_symbol(input: Seq<u8>, sym: u8)
    requires
        1 <= input.len() <= u64::MAX,
        forall|i: int| 0 <= i < input.len() ==> input[i] == sym,
    ensures
        spec_huffman_tree(input) == (HuffmanTreeNode::Leaf {
            weight: input.len() as u64,
            symbol: sym,
        }),
        spec_codes(spec_huffman_tree(input), Seq::<bool>::empty()) == Map::<u8,
            Seq<bool>,
        >::empty().insert(sym, seq![false]),
        spec_encode_bits(
            input,
            spec_codes(spec_huffman_tree(input), Seq::<bool>::empty()),
        ) =~= Seq::new(input.len(), |i: int| false),
{
    let counts = spec_counts(input);
    let s = spec_leaves(input);
    lemma_leaves_up_to_props(counts, 256);
    assert forall|c: u8| true implies #[trigger] counts[c as int] == (if c == sym {
        input.len() as u64
    } else {
        0u64
    }) by {
        lemma_count_uniform(input, sym, c);
    }
    assert(all_symbols(s).contains(sym));
    lemma_sym_idx(s, sym);
    let k = sym_idx(s, sym);
    assert(s[k] == (HuffmanTreeNode::Leaf { weight: input.len() as u64, symbol: sym })) by {
        assert(s[k]->Leaf_symbol == sym);
    }
    assert(s.len() == 1) by {
        if s.len() >= 2 {
            let other: int = if k == 0 {
                1
            } else {
                0
            };
            assert(s[other]->Leaf_symbol != s[k]->Leaf_symbol);
            assert(counts[s[other]->Leaf_symbol as int] > 0);
        }
    }
    assert(spec_build_tree(s) == s[0]);
    assert(k == 0);
    let t = spec_huffman_tree(input);
    let m = spec_codes(t, Seq::<bool>::empty());
    assert(m == Map::<u8, Seq<bool>>::empty().insert(sym, seq![false]));
    lemma_encode_single(input, m, sym);
}

} // verus!
