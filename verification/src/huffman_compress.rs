//! Huffman coding engine: tree construction, code derivation, and the
//! encode/decode facade.

use vstd::prelude::*;
use std::collections::HashMap;
use crate::bits::{
    code_bits, code_clone, code_extend, code_is_empty, code_new, code_push, pack_bits,
    CODE_BITS_CAP,
};
use crate::bits::{bit_at, HaffmanCompressedCode, PackedBitstream};
use crate::errors::HuffmanError;

verus! {

broadcast use vstd::std_specs::hash::group_hash_axioms;

/// A dictionary from each symbol to its compressed bit code.
pub type HaffmanCompressedDict = HashMap<u8, HaffmanCompressedCode>;

/// A node of the coding tree: a leaf holding one symbol, or an internal
/// node that owns exactly two children and whose weight is the sum of
/// theirs.
#[derive(Debug, PartialEq, Eq)]
pub enum HuffmanTreeNode {
    Leaf { weight: u64, symbol: u8 },
    Internal { weight: u64, left: Box<HuffmanTreeNode>, right: Box<HuffmanTreeNode> },
}

impl HuffmanTreeNode {
    /// The weight of the root of this subtree.
    pub open spec fn spec_weight(&self) -> u64 {
        match *self {
            HuffmanTreeNode::Leaf { weight, .. } => weight,
            HuffmanTreeNode::Internal { weight, .. } => weight,
        }
    }

    /// Every internal node's weight is the sum of its children's.
    pub open spec fn well_formed(&self) -> bool
        decreases *self,
    {
        match *self {
            HuffmanTreeNode::Leaf { .. } => true,
            HuffmanTreeNode::Internal { weight, left, right } => {
                &&& weight == left.spec_weight() + right.spec_weight()
                &&& left.well_formed()
                &&& right.well_formed()
            },
        }
    }
}

/// The merge of two extracted nodes: the first becomes the left child.
pub open spec fn merged(n1: HuffmanTreeNode, n2: HuffmanTreeNode) -> HuffmanTreeNode {
    HuffmanTreeNode::Internal {
        weight: (n1.spec_weight() + n2.spec_weight()) as u64,
        left: Box::new(n1),
        right: Box::new(n2),
    }
}

impl HuffmanTreeNode {
    /// Reads the weight of the root of this subtree.
    pub fn weight(&self) -> (w: u64)
        ensures
            w == self.spec_weight(),
    {
        match self {
            HuffmanTreeNode::Leaf { weight, .. } => *weight,
            HuffmanTreeNode::Internal { weight, .. } => *weight,
        }
    }
}

/// The total weight of a collection of nodes.
pub open spec fn sum_weights(s: Seq<HuffmanTreeNode>) -> int
    decreases s.len(),
{
    if s.len() == 0 {
        0
    } else {
        s[0].spec_weight() + sum_weights(s.drop_first())
    }
}

/// The position of the lowest-weight node; on equal weights, the earliest
/// position.  This fixes the extraction order of the merge loop, so one
/// input sequence always yields one tree.
pub open spec fn first_min_idx(s: Seq<HuffmanTreeNode>) -> int
    recommends
        s.len() > 0,
    decreases s.len(),
{
    if s.len() <= 1 {
        0
    } else {
        let rest = first_min_idx(s.drop_first());
        if s[0].spec_weight() <= s[rest + 1].spec_weight() {
            0
        } else {
            rest + 1
        }
    }
}

/// One greedy step: extract the two lowest-weight nodes (earliest first on
/// ties), merge them with the first extracted as the left child, and place
/// the merged node at the end of the work list.
pub open spec fn merge_step(s: Seq<HuffmanTreeNode>) -> Seq<HuffmanTreeNode>
    recommends
        s.len() >= 2,
{
    let i = first_min_idx(s);
    let s1 = s.remove(i);
    let j = first_min_idx(s1);
    s1.remove(j).push(merged(s[i], s1[j]))
}

/// The tree that repeated greedy merging leaves standing.
pub open spec fn spec_build_tree(s: Seq<HuffmanTreeNode>) -> HuffmanTreeNode
    recommends
        s.len() >= 1,
    decreases s.len(),
{
    if s.len() <= 1 {
        s[0]
    } else {
        proof {
            lemma_merge_step_len(s);
        }
        spec_build_tree(merge_step(s))
    }
}

pub proof fn lemma_merge_step_len(s: Seq<HuffmanTreeNode>)
    requires
        s.len() >= 2,
    ensures
        merge_step(s).len() == s.len() - 1,
{
    lemma_first_min_idx(s);
    lemma_first_min_idx(s.remove(first_min_idx(s)));
}

pub proof fn lemma_first_min_idx(s: Seq<HuffmanTreeNode>)
    requires
        s.len() > 0,
    ensures
        0 <= first_min_idx(s) < s.len(),
        forall|k: int|
            0 <= k < s.len() ==> s[first_min_idx(s)].spec_weight() <= #[trigger] s[k].spec_weight(),
        forall|k: int|
            0 <= k < first_min_idx(s) ==> #[trigger] s[k].spec_weight() > s[first_min_idx(
                s,
            )].spec_weight(),
    decreases s.len(),
{
    if s.len() > 1 {
        lemma_first_min_idx(s.drop_first());
        let rest = first_min_idx(s.drop_first());
        assert(forall|k: int| 1 <= k < s.len() ==> s[k] == s.drop_first()[k - 1]);
    }
}

proof fn lemma_first_min_idx_unique(s: Seq<HuffmanTreeNode>, i: int)
    requires
        0 <= i < s.len(),
        forall|k: int| 0 <= k < s.len() ==> s[i].spec_weight() <= #[trigger] s[k].spec_weight(),
        forall|k: int| 0 <= k < i ==> #[trigger] s[k].spec_weight() > s[i].spec_weight(),
    ensures
        i == first_min_idx(s),
{
    lemma_first_min_idx(s);
}

proof fn lemma_sum_weights_nonneg(s: Seq<HuffmanTreeNode>)
    ensures
        sum_weights(s) >= 0,
    decreases s.len(),
{
    if s.len() > 0 {
        lemma_sum_weights_nonneg(s.drop_first());
    }
}

proof fn lemma_sum_weights_remove(s: Seq<HuffmanTreeNode>, i: int)
    requires
        0 <= i < s.len(),
    ensures
        sum_weights(s.remove(i)) == sum_weights(s) - s[i].spec_weight(),
    decreases s.len(),
{
    if i == 0 {
        assert(s.remove(0) =~= s.drop_first());
    } else {
        lemma_sum_weights_remove(s.drop_first(), i - 1);
        assert(s.remove(i).drop_first() =~= s.drop_first().remove(i - 1));
        assert(s.remove(i)[0] == s[0]);
    }
}

proof fn lemma_sum_weights_push(s: Seq<HuffmanTreeNode>, n: HuffmanTreeNode)
    ensures
        sum_weights(s.push(n)) == sum_weights(s) + n.spec_weight(),
    decreases s.len(),
{
    if s.len() == 0 {
        assert(s.push(n).drop_first() =~= Seq::<HuffmanTreeNode>::empty());
        assert(s.push(n)[0] == n);
        assert(s.push(n).len() == 1);
        assert(sum_weights(Seq::<HuffmanTreeNode>::empty()) == 0);
        assert(sum_weights(s.push(n)) == s.push(n)[0].spec_weight() + sum_weights(
            s.push(n).drop_first(),
        ));
        assert(sum_weights(s) == 0);
    } else {
        lemma_sum_weights_push(s.drop_first(), n);
        assert(s.push(n).drop_first() =~= s.drop_first().push(n));
        assert(s.push(n)[0] == s[0]);
    }
}

/// Finds the position of the lowest-weight node, preferring the earliest
/// on ties.
fn find_min_index(nodes: &Vec<HuffmanTreeNode>) -> (i: usize)
    requires
        nodes@.len() > 0,
    ensures
        i == first_min_idx(nodes@),
        0 <= i < nodes@.len(),
{
    let mut best: usize = 0;
    let mut k: usize = 1;
    while k < nodes.len()
        invariant
            1 <= k <= nodes@.len(),
            best < k,
            forall|j: int|
                0 <= j < k ==> nodes@[best as int].spec_weight() <= #[trigger] nodes@[j].spec_weight(),
            forall|j: int|
                0 <= j < best ==> #[trigger] nodes@[j].spec_weight() > nodes@[best as int].spec_weight(),
        decreases nodes@.len() - k,
    {
        if nodes[k].weight() < nodes[best].weight() {
            best = k;
        }
        k += 1;
    }
    proof {
        lemma_first_min_idx_unique(nodes@, best as int);
    }
    best
}

/// Returns a demonstration set of weighted symbols: the letters A, B and
/// C (byte values 65, 66 and 67) with weights 10, 20 and 25.
pub fn generate_haffman_tree_nodes() -> (r: Vec<HuffmanTreeNode>)
    ensures
        r@ =~= seq![
            HuffmanTreeNode::Leaf { weight: 10, symbol: 65 },
            HuffmanTreeNode::Leaf { weight: 20, symbol: 66 },
            HuffmanTreeNode::Leaf { weight: 25, symbol: 67 },
        ],
{
    let mut res: Vec<HuffmanTreeNode> = Vec::new();
    res.push(HuffmanTreeNode::Leaf { weight: 10, symbol: 65 });
    res.push(HuffmanTreeNode::Leaf { weight: 20, symbol: 66 });
    res.push(HuffmanTreeNode::Leaf { weight: 25, symbol: 67 });
    res
}

/// Builds the coding tree: repeatedly extracts the two lowest-weight
/// nodes (the earliest on equal weights) and merges them, the first
/// extracted as the left child, until one root remains.  An empty symbol
/// set is a construction error, never a silent empty tree.
pub fn generate_haffman_tree(nodes: Vec<HuffmanTreeNode>) -> (r: Result<
    HuffmanTreeNode,
    HuffmanError,
>)
    requires
        sum_weights(nodes@) <= u64::MAX,
    ensures
        nodes@.len() == 0 <==> r is Err,
        r matches Err(e) ==> e == HuffmanError::EmptyAlphabet,
        r matches Ok(t) ==> {
            &&& t == spec_build_tree(nodes@)
            &&& t.spec_weight() == sum_weights(nodes@)
            &&& (forall|k: int|
                0 <= k < nodes@.len() ==> nodes@[k].well_formed()) ==> t.well_formed()
        },
{
    let ghost orig = nodes@;
    let mut work = nodes;
    if work.len() == 0 {
        return Err(HuffmanError::EmptyAlphabet);
    }
    while work.len() > 1
        invariant
            work@.len() >= 1,
            sum_weights(work@) == sum_weights(orig),
            sum_weights(orig) <= u64::MAX,
            spec_build_tree(work@) == spec_build_tree(orig),
            (forall|k: int| 0 <= k < orig.len() ==> orig[k].well_formed()) ==> (forall|k: int|
                0 <= k < work@.len() ==> work@[k].well_formed()),
        decreases work@.len(),
    {
        let ghost prev = work@;
        let i = find_min_index(&work);
        let n1 = work.remove(i);
        let j = find_min_index(&work);
        let n2 = work.remove(j);
        proof {
            lemma_sum_weights_remove(prev, i as int);
            lemma_sum_weights_remove(prev.remove(i as int), j as int);
            lemma_sum_weights_nonneg(prev.remove(i as int).remove(j as int));
        }
        let w = n1.weight() + n2.weight();
        work.push(HuffmanTreeNode::Internal { weight: w, left: Box::new(n1), right: Box::new(n2) });
        proof {
            lemma_sum_weights_push(prev.remove(i as int).remove(j as int), merged(n1, n2));
            assert(work@ =~= merge_step(prev));
        }
    }
    let ghost fin = work@;
    let t = match work.pop() {
        Some(t) => t,
        None => { return Err(HuffmanError::EmptyAlphabet) },
    };
    proof {
        assert(fin =~= Seq::<HuffmanTreeNode>::empty().push(t));
        lemma_sum_weights_push(Seq::<HuffmanTreeNode>::empty(), t);
        assert(spec_build_tree(fin) == t);
    }
    Ok(t)
}


impl HuffmanTreeNode {
    /// The number of edges on the longest root-to-leaf path.
    pub open spec fn spec_height(&self) -> nat
        decreases *self,
    {
        match *self {
            HuffmanTreeNode::Leaf { .. } => 0,
            HuffmanTreeNode::Internal { left, right, .. } => {
                let hl = left.spec_height();
                let hr = right.spec_height();
                1 + if hl >= hr {
                    hl
                } else {
                    hr
                }
            },
        }
    }
}

/// The code of every leaf below a node, each the path from that node down
/// to the leaf (`false` for a left edge, `true` for a right edge) appended
/// to `prefix`.  A leaf reached with an empty accumulated path (the root
/// itself) gets the single-bit code `false`, since an empty code cannot be
/// decoded.  When one symbol sits in several leaves, the rightmost leaf's
/// code wins, as in the left-to-right insertion order of the generator.
pub open spec fn spec_codes(t: HuffmanTreeNode, prefix: Seq<bool>) -> Map<u8, Seq<bool>>
    decreases t,
{
    match t {
        HuffmanTreeNode::Leaf { symbol, .. } => Map::<u8, Seq<bool>>::empty().insert(
            symbol,
            if prefix.len() == 0 {
                seq![false]
            } else {
                prefix
            },
        ),
        HuffmanTreeNode::Internal { left, right, .. } => spec_codes(
            *left,
            prefix.push(false),
        ).union_prefer_right(spec_codes(*right, prefix.push(true))),
    }
}

/// The abstract symbol-to-bits mapping that a dictionary holds.
pub open spec fn dict_model(d: Map<u8, HaffmanCompressedCode>) -> Map<u8, Seq<bool>> {
    Map::new(|k: u8| d.dom().contains(k), |k: u8| code_bits(d[k]))
}

/// Walks the tree depth first and records, for every leaf, the
/// accumulated path as that symbol's code.
fn generate_haffman_dic_internal(
    node: &HuffmanTreeNode,
    current_compress_code: HaffmanCompressedCode,
    dict: &mut HaffmanCompressedDict,
)
    requires
        code_bits(current_compress_code).len() + node.spec_height() < CODE_BITS_CAP,
    ensures
        dict_model(final(dict)@) == dict_model(old(dict)@).union_prefer_right(
            spec_codes(*node, code_bits(current_compress_code)),
        ),
    decreases *node,
{
    match node {
        HuffmanTreeNode::Leaf { symbol, .. } => {
            let mut c = current_compress_code;
            if code_is_empty(&c) {
                code_push(&mut c, false);
                proof {
                    assert(code_bits(c) =~= seq![false]);
                }
            }
            let ghost cv = c;
            dict.insert(*symbol, c);
            proof {
                assert(dict@ == old(dict)@.insert(*symbol, cv));
                assert(dict_model(dict@) =~= dict_model(old(dict)@).union_prefer_right(
                    spec_codes(*node, code_bits(current_compress_code)),
                ));
            }
        },
        HuffmanTreeNode::Internal { left, right, .. } => {
            let mut left_code = code_clone(&current_compress_code);
            let mut right_code = current_compress_code;
            code_push(&mut left_code, false);
            code_push(&mut right_code, true);
            let ghost m0 = dict_model(dict@);
            let ghost l = spec_codes(**left, code_bits(left_code));
            let ghost r = spec_codes(**right, code_bits(right_code));
            generate_haffman_dic_internal(left, left_code, dict);
            generate_haffman_dic_internal(right, right_code, dict);
            proof {
                assert(m0.union_prefer_right(l).union_prefer_right(r) =~= m0.union_prefer_right(
                    l.union_prefer_right(r),
                ));
            }
        },
    }
}

/// Derives the code dictionary of a finished tree: a depth-first walk
/// that appends `false` when descending left and `true` when descending
/// right, and records the accumulated path at each leaf.  A root that is
/// itself a leaf gets the single-bit code `false`.
pub fn generate_haffman_dic(root: &HuffmanTreeNode) -> (d: HaffmanCompressedDict)
    requires
        root.spec_height() < CODE_BITS_CAP,
    ensures
        dict_model(d@) == spec_codes(*root, Seq::<bool>::empty()),
{
    let mut dict: HaffmanCompressedDict = HashMap::new();
    let empty_code = code_new();
    generate_haffman_dic_internal(root, empty_code, &mut dict);
    proof {
        assert(dict_model(Map::<u8, HaffmanCompressedCode>::empty()).union_prefer_right(
            spec_codes(*root, Seq::<bool>::empty()),
        ) =~= spec_codes(*root, Seq::<bool>::empty()));
    }
    dict
}


/// One tree walk: consumes bits (`false` steps left, `true` steps right)
/// until a leaf is reached, and returns that leaf's symbol together with
/// the bits left over.  Running out of bits at an internal node is a
/// truncation.
pub open spec fn spec_walk(t: HuffmanTreeNode, bits: Seq<bool>) -> Option<(u8, Seq<bool>)>
    decreases t,
{
    match t {
        HuffmanTreeNode::Leaf { symbol, .. } => Some((symbol, bits)),
        HuffmanTreeNode::Internal { left, right, .. } => {
            if bits.len() == 0 {
                None
            } else if !bits[0] {
                spec_walk(*left, bits.drop_first())
            } else {
                spec_walk(*right, bits.drop_first())
            }
        },
    }
}

pub proof fn lemma_spec_walk_consumes(t: HuffmanTreeNode, bits: Seq<bool>)
    ensures
        spec_walk(t, bits) matches Some(sr) ==> sr.1.len() + (if t is Internal {
            1int
        } else {
            0int
        }) <= bits.len(),
    decreases t,
{
    match t {
        HuffmanTreeNode::Leaf { .. } => {},
        HuffmanTreeNode::Internal { left, right, .. } => {
            if bits.len() > 0 {
                lemma_spec_walk_consumes(*left, bits.drop_first());
                lemma_spec_walk_consumes(*right, bits.drop_first());
            }
        },
    }
}

/// The byte sequence that a bit sequence decodes to against a tree, or
/// nothing when the bits run out in the middle of a walk.  A tree that is
/// a single leaf emits its symbol once per bit, the inverse of the
/// one-bit code the generator assigns it.
pub open spec fn spec_decode(root: HuffmanTreeNode, bits: Seq<bool>) -> Option<Seq<u8>>
    decreases bits.len(),
{
    if root is Leaf {
        Some(Seq::new(bits.len() as nat, |i: int| root->Leaf_symbol))
    } else if bits.len() == 0 {
        Some(Seq::<u8>::empty())
    } else {
        match spec_walk(root, bits) {
            Option::None => Option::None,
            Option::Some(sr) => {
                proof {
                    lemma_spec_walk_consumes(root, bits);
                }
                match spec_decode(root, sr.1) {
                    Option::None => Option::None,
                    Option::Some(tail) => Some(seq![sr.0] + tail),
                }
            },
        }
    }
}

/// `pre` prepended inside an optional decode result.
pub open spec fn opt_prepend(pre: Seq<u8>, o: Option<Seq<u8>>) -> Option<Seq<u8>> {
    match o {
        Option::None => Option::None,
        Option::Some(t) => Some(pre + t),
    }
}

/// Walks the tree from `node`, consuming stream bits from position `i`,
/// until a leaf is reached; returns its symbol and the next bit position.
fn decode_step(node: &HuffmanTreeNode, stream: &PackedBitstream, i: usize) -> (r: Result<
    (u8, usize),
    HuffmanError,
>)
    requires
        stream.well_formed(),
        i <= stream.bit_count,
    ensures
        r matches Ok(sn) ==> {
            &&& i <= sn.1 <= stream.bit_count
            &&& spec_walk(*node, stream.bits().skip(i as int)) == Some(
                (sn.0, stream.bits().skip(sn.1 as int)),
            )
            &&& (node is Internal ==> i < sn.1)
        },
        r matches Err(e) ==> {
            &&& e == HuffmanError::TruncatedStream
            &&& spec_walk(*node, stream.bits().skip(i as int)) is None
        },
    decreases *node,
{
    match node {
        HuffmanTreeNode::Leaf { symbol, .. } => Ok((*symbol, i)),
        HuffmanTreeNode::Internal { left, right, .. } => {
            if i >= stream.bit_count {
                proof {
                    assert(stream.bits().skip(i as int) =~= Seq::<bool>::empty());
                }
                Err(HuffmanError::TruncatedStream)
            } else {
                let b = bit_at(stream, i);
                proof {
                    assert(stream.bits().skip(i as int).drop_first() =~= stream.bits().skip(
                        i + 1,
                    ));
                    assert(stream.bits().skip(i as int)[0] == stream.bits()[i as int]);
                }
                if b {
                    decode_step(right, stream, i + 1)
                } else {
                    decode_step(left, stream, i + 1)
                }
            }
        },
    }
}

/// Reconstructs the original bytes from a packed stream and the tree that
/// produced it: each symbol is one walk from the root, `false` stepping
/// left and `true` stepping right, until exactly the stored bit count has
/// been consumed.  Exhausting the bits in the middle of a walk is a
/// truncation error.
pub fn decode(root: &HuffmanTreeNode, stream: &PackedBitstream) -> (r: Result<
    Vec<u8>,
    HuffmanError,
>)
    requires
        stream.well_formed(),
    ensures
        r is Ok <==> spec_decode(*root, stream.bits()) is Some,
        r matches Ok(v) ==> spec_decode(*root, stream.bits()) == Some(v@),
        r matches Err(e) ==> e == HuffmanError::TruncatedStream,
{
    let n = stream.bit_count;
    let mut out: Vec<u8> = Vec::new();
    match root {
        HuffmanTreeNode::Leaf { symbol, .. } => {
            let mut i: usize = 0;
            while i < n
                invariant
                    i <= n,
                    out@ =~= Seq::new(i as nat, |k: int| *symbol),
                decreases n - i,
            {
                out.push(*symbol);
                i += 1;
                proof {
                    assert(out@ =~= Seq::new(i as nat, |k: int| *symbol));
                }
            }
            proof {
                assert(out@ =~= Seq::new(stream.bits().len(), |k: int| root->Leaf_symbol));
            }
            Ok(out)
        },
        HuffmanTreeNode::Internal { .. } => {
            let mut i: usize = 0;
            proof {
                assert(stream.bits().skip(0) =~= stream.bits());
                match spec_decode(*root, stream.bits()) {
                    Option::None => {},
                    Option::Some(t) => {
                        assert(Seq::<u8>::empty() + t =~= t);
                    },
                }
            }
            while i < n
                invariant
                    i <= n,
                    n == stream.bit_count,
                    stream.well_formed(),
                    root is Internal,
                    opt_prepend(out@, spec_decode(*root, stream.bits().skip(i as int)))
                        == spec_decode(*root, stream.bits()),
                decreases n - i,
            {
                match decode_step(root, stream, i) {
                    Err(_) => {
                        proof {
                            assert(spec_decode(*root, stream.bits().skip(i as int)) is None);
                        }
                        return Err(HuffmanError::TruncatedStream);
                    },
                    Ok((s, ni)) => {
                        let ghost pre = out@;
                        let ghost rest = stream.bits().skip(ni as int);
                        out.push(s);
                        proof {
                            lemma_spec_walk_consumes(*root, stream.bits().skip(i as int));
                            match spec_decode(*root, rest) {
                                Option::None => {},
                                Option::Some(tail) => {
                                    assert(pre.push(s) + tail =~= pre + (seq![s] + tail));
                                },
                            }
                        }
                        i = ni;
                    },
                }
            }
            proof {
                assert(stream.bits().skip(n as int) =~= Seq::<bool>::empty());
                assert(out@ + Seq::<u8>::empty() =~= out@);
            }
            Ok(out)
        },
    }
}


/// How many times a symbol occurs in a byte sequence.
pub open spec fn count_of(b: Seq<u8>, s: u8) -> nat
    decreases b.len(),
{
    if b.len() == 0 {
        0
    } else {
        count_of(b.drop_last(), s) + if b.last() == s {
            1nat
        } else {
            0nat
        }
    }
}

/// The occurrence count of every byte value, indexed by symbol.
pub open spec fn spec_counts(b: Seq<u8>) -> Seq<u64> {
    Seq::new(256, |s: int| count_of(b, s as u8) as u64)
}

/// One leaf per symbol below `k` whose count is positive, in ascending
/// symbol order.
pub open spec fn leaves_up_to(counts: Seq<u64>, k: int) -> Seq<HuffmanTreeNode>
    recommends
        counts.len() == 256,
        k <= 256,
    decreases k,
{
    if k <= 0 {
        Seq::empty()
    } else if counts[k - 1] > 0 {
        leaves_up_to(counts, k - 1).push(
            HuffmanTreeNode::Leaf { weight: counts[k - 1], symbol: (k - 1) as u8 },
        )
    } else {
        leaves_up_to(counts, k - 1)
    }
}

/// The weighted leaves of a byte sequence: one per distinct symbol, in
/// ascending symbol order, weighted by occurrence count.
pub open spec fn spec_leaves(b: Seq<u8>) -> Seq<HuffmanTreeNode> {
    leaves_up_to(spec_counts(b), 256)
}

/// The coding tree the engine derives from a byte sequence.
pub open spec fn spec_huffman_tree(b: Seq<u8>) -> HuffmanTreeNode {
    spec_build_tree(spec_leaves(b))
}

/// The total occurrence count of all symbols below `k`.
pub open spec fn prefix_count(b: Seq<u8>, k: int) -> int
    decreases k,
{
    if k <= 0 {
        0
    } else {
        prefix_count(b, k - 1) + count_of(b, (k - 1) as u8)
    }
}

pub proof fn lemma_count_of_push(b: Seq<u8>, x: u8, s: u8)
    ensures
        count_of(b.push(x), s) == count_of(b, s) + if x == s {
            1int
        } else {
            0int
        },
{
    assert(b.push(x).drop_last() =~= b);
}

pub proof fn lemma_count_le_len(b: Seq<u8>, s: u8)
    ensures
        count_of(b, s) <= b.len(),
    decreases b.len(),
{
    if b.len() > 0 {
        lemma_count_le_len(b.drop_last(), s);
    }
}

pub proof fn lemma_count_positive(b: Seq<u8>, i: int)
    requires
        0 <= i < b.len(),
    ensures
        count_of(b, b[i]) >= 1,
    decreases b.len(),
{
    if i < b.len() - 1 {
        lemma_count_positive(b.drop_last(), i);
    }
}

proof fn lemma_prefix_count_empty(k: int)
    ensures
        prefix_count(Seq::<u8>::empty(), k) == 0,
    decreases k,
{
    if k > 0 {
        lemma_prefix_count_empty(k - 1);
    }
}

proof fn lemma_prefix_count_push(b: Seq<u8>, x: u8, k: int)
    requires
        0 <= k <= 256,
    ensures
        prefix_count(b.push(x), k) == prefix_count(b, k) + if (x as int) < k {
            1int
        } else {
            0int
        },
    decreases k,
{
    if k > 0 {
        lemma_prefix_count_push(b, x, k - 1);
        lemma_count_of_push(b, x, (k - 1) as u8);
    }
}

/// Every occurrence is counted exactly once over the whole alphabet: the
/// counts sum to the input's length.
pub proof fn lemma_prefix_count_total(b: Seq<u8>)
    ensures
        prefix_count(b, 256) == b.len(),
    decreases b.len(),
{
    if b.len() == 0 {
        lemma_prefix_count_empty(256);
        assert(b =~= Seq::<u8>::empty());
    } else {
        lemma_prefix_count_total(b.drop_last());
        lemma_prefix_count_push(b.drop_last(), b.last(), 256);
        assert((b.last() as int) < 256);
        assert(b.drop_last().push(b.last()) =~= b);
        assert(prefix_count(b.drop_last().push(b.last()), 256) == b.drop_last().len() + 1);
    }
}

/// The weights of the derived leaves sum to the counted prefix.
pub proof fn lemma_leaves_sum(b: Seq<u8>, k: int)
    requires
        0 <= k <= 256,
        b.len() <= u64::MAX,
    ensures
        sum_weights(leaves_up_to(spec_counts(b), k)) == prefix_count(b, k),
    decreases k,
{
    if k > 0 {
        lemma_leaves_sum(b, k - 1);
        lemma_count_le_len(b, (k - 1) as u8);
        if spec_counts(b)[k - 1] > 0 {
            lemma_sum_weights_push(
                leaves_up_to(spec_counts(b), k - 1),
                HuffmanTreeNode::Leaf { weight: spec_counts(b)[k - 1], symbol: (k - 1) as u8 },
            );
        }
    }
}

/// A table of occurrence counts, one per byte value.
pub struct FrequencyTable {
    pub counts: Vec<u64>,
}

impl FrequencyTable {
    /// The table always covers the whole byte alphabet.
    pub open spec fn well_formed(&self) -> bool {
        self.counts@.len() == 256
    }
}

/// Scans the input once and counts every symbol's occurrences.  An empty
/// input yields an all-zero table.
pub fn build_frequency_table(input: &Vec<u8>) -> (t: FrequencyTable)
    ensures
        t.well_formed(),
        t.counts@ == spec_counts(input@),
{
    let mut counts: Vec<u64> = Vec::new();
    let mut k: usize = 0;
    while k < 256
        invariant
            k <= 256,
            counts@.len() == k,
            forall|s: int| 0 <= s < k ==> counts@[s] == 0,
        decreases 256 - k,
    {
        counts.push(0);
        k += 1;
    }
    let mut i: usize = 0;
    while i < input.len()
        invariant
            i <= input@.len(),
            counts@.len() == 256,
            forall|s: int| 0 <= s < 256 ==> counts@[s] == count_of(input@.take(i as int), s as u8),
        decreases input@.len() - i,
    {
        let sym = input[i] as usize;
        let ghost prefix = input@.take(i as int);
        proof {
            lemma_count_le_len(prefix, input@[i as int]);
            assert(prefix.len() < usize::MAX);
        }
        let c = counts[sym];
        counts.set(sym, c + 1);
        i += 1;
        proof {
            assert(input@.take(i as int) =~= prefix.push(input@[i - 1]));
            assert forall|s: int| 0 <= s < 256 implies counts@[s] == count_of(
                input@.take(i as int),
                s as u8,
            ) by {
                lemma_count_of_push(prefix, input@[i - 1], s as u8);
            }
        }
    }
    proof {
        assert(input@.take(input@.len() as int) =~= input@);
        assert(counts@ =~= spec_counts(input@));
    }
    FrequencyTable { counts }
}

/// Turns a frequency table into weighted leaves, one per symbol that
/// occurs, in ascending symbol order.
pub fn tree_nodes_from_frequencies(table: &FrequencyTable) -> (r: Vec<HuffmanTreeNode>)
    requires
        table.well_formed(),
    ensures
        r@ == leaves_up_to(table.counts@, 256),
{
    let mut res: Vec<HuffmanTreeNode> = Vec::new();
    let mut k: usize = 0;
    while k < 256
        invariant
            k <= 256,
            table.counts@.len() == 256,
            res@ == leaves_up_to(table.counts@, k as int),
        decreases 256 - k,
    {
        let w = table.counts[k];
        if w > 0 {
            res.push(HuffmanTreeNode::Leaf { weight: w, symbol: k as u8 });
        }
        k += 1;
    }
    res
}


impl HuffmanTreeNode {
    /// The number of leaves of this subtree.
    pub open spec fn num_leaves(&self) -> nat
        decreases *self,
    {
        match *self {
            HuffmanTreeNode::Leaf { .. } => 1,
            HuffmanTreeNode::Internal { left, right, .. } => left.num_leaves()
                + right.num_leaves(),
        }
    }

    /// The set of symbols on this subtree's leaves.
    pub open spec fn leaf_symbols(&self) -> Set<u8>
        decreases *self,
    {
        match *self {
            HuffmanTreeNode::Leaf { symbol, .. } => Set::<u8>::empty().insert(symbol),
            HuffmanTreeNode::Internal { left, right, .. } => left.leaf_symbols().union(
                right.leaf_symbols(),
            ),
        }
    }
}

/// The total leaf count of a collection of nodes.
pub open spec fn total_leaves(s: Seq<HuffmanTreeNode>) -> int
    decreases s.len(),
{
    if s.len() == 0 {
        0
    } else {
        s[0].num_leaves() + total_leaves(s.drop_first())
    }
}

/// The union of the leaf symbols of a collection of nodes.
pub open spec fn all_symbols(s: Seq<HuffmanTreeNode>) -> Set<u8>
    decreases s.len(),
{
    if s.len() == 0 {
        Set::empty()
    } else {
        s[0].leaf_symbols().union(all_symbols(s.drop_first()))
    }
}

proof fn lemma_total_leaves_remove(s: Seq<HuffmanTreeNode>, i: int)
    requires
        0 <= i < s.len(),
    ensures
        total_leaves(s.remove(i)) == total_leaves(s) - s[i].num_leaves(),
    decreases s.len(),
{
    if i == 0 {
        assert(s.remove(0) =~= s.drop_first());
    } else {
        lemma_total_leaves_remove(s.drop_first(), i - 1);
        assert(s.remove(i).drop_first() =~= s.drop_first().remove(i - 1));
        assert(s.remove(i)[0] == s[0]);
    }
}

proof fn lemma_total_leaves_push(s: Seq<HuffmanTreeNode>, n: HuffmanTreeNode)
    ensures
        total_leaves(s.push(n)) == total_leaves(s) + n.num_leaves(),
    decreases s.len(),
{
    if s.len() == 0 {
        assert(s.push(n).drop_first() =~= Seq::<HuffmanTreeNode>::empty());
        assert(s.push(n)[0] == n);
        assert(total_leaves(Seq::<HuffmanTreeNode>::empty()) == 0);
        assert(total_leaves(s.push(n)) == s.push(n)[0].num_leaves() + total_leaves(
            s.push(n).drop_first(),
        ));
        assert(total_leaves(s) == 0);
    } else {
        lemma_total_leaves_push(s.drop_first(), n);
        assert(s.push(n).drop_first() =~= s.drop_first().push(n));
        assert(s.push(n)[0] == s[0]);
        assert(total_leaves(s.push(n)) == s.push(n)[0].num_leaves() + total_leaves(
            s.push(n).drop_first(),
        ));
    }
}

proof fn lemma_all_symbols_remove(s: Seq<HuffmanTreeNode>, i: int)
    requires
        0 <= i < s.len(),
    ensures
        all_symbols(s) =~= all_symbols(s.remove(i)).union(s[i].leaf_symbols()),
    decreases s.len(),
{
    if i == 0 {
        assert(s.remove(0) =~= s.drop_first());
    } else {
        lemma_all_symbols_remove(s.drop_first(), i - 1);
        assert(s.remove(i).drop_first() =~= s.drop_first().remove(i - 1));
        assert(s.remove(i)[0] == s[0]);
    }
}

proof fn lemma_all_symbols_push(s: Seq<HuffmanTreeNode>, n: HuffmanTreeNode)
    ensures
        all_symbols(s.push(n)) =~= all_symbols(s).union(n.leaf_symbols()),
    decreases s.len(),
{
    if s.len() == 0 {
        assert(s.push(n).drop_first() =~= Seq::<HuffmanTreeNode>::empty());
        assert(s.push(n)[0] == n);
        assert(all_symbols(Seq::<HuffmanTreeNode>::empty()) =~= Set::<u8>::empty());
        assert(all_symbols(s.push(n)) =~= s.push(n)[0].leaf_symbols().union(
            all_symbols(s.push(n).drop_first()),
        ));
        assert(all_symbols(s) =~= Set::<u8>::empty());
    } else {
        lemma_all_symbols_push(s.drop_first(), n);
        assert(s.push(n).drop_first() =~= s.drop_first().push(n));
        assert(s.push(n)[0] == s[0]);
        assert(all_symbols(s.push(n)) =~= s.push(n)[0].leaf_symbols().union(
            all_symbols(s.push(n).drop_first()),
        ));
    }
}

proof fn lemma_merge_step_preserves(s: Seq<HuffmanTreeNode>)
    requires
        s.len() >= 2,
    ensures
        total_leaves(merge_step(s)) == total_leaves(s),
        all_symbols(merge_step(s)) =~= all_symbols(s),
{
    let i = first_min_idx(s);
    lemma_first_min_idx(s);
    let s1 = s.remove(i);
    let j = first_min_idx(s1);
    lemma_first_min_idx(s1);
    let m = merged(s[i], s1[j]);
    lemma_total_leaves_remove(s, i);
    lemma_total_leaves_remove(s1, j);
    lemma_total_leaves_push(s1.remove(j), m);
    lemma_all_symbols_remove(s, i);
    lemma_all_symbols_remove(s1, j);
    lemma_all_symbols_push(s1.remove(j), m);
}

/// The original position of the second extracted node of a merge step.
pub open spec fn second_min_orig_idx(s: Seq<HuffmanTreeNode>) -> int {
    let i = first_min_idx(s);
    let j = first_min_idx(s.remove(i));
    if j < i {
        j
    } else {
        j + 1
    }
}

/// One merge step keeps the list's symbols, total leaf count and total
/// weight, and the two extracted nodes' weights fit their sum.
pub proof fn lemma_merge_step_preserves_pub(s: Seq<HuffmanTreeNode>)
    requires
        s.len() >= 2,
        sum_weights(s) <= u64::MAX,
    ensures
        total_leaves(merge_step(s)) == total_leaves(s),
        all_symbols(merge_step(s)) =~= all_symbols(s),
        sum_weights(merge_step(s)) == sum_weights(s),
        s[second_min_orig_idx(s)] == s.remove(first_min_idx(s))[first_min_idx(
            s.remove(first_min_idx(s)),
        )],
        0 <= s[first_min_idx(s)].spec_weight() + s[second_min_orig_idx(s)].spec_weight()
            <= sum_weights(s),
{
    lemma_merge_step_preserves(s);
    let i = first_min_idx(s);
    lemma_first_min_idx(s);
    let s1 = s.remove(i);
    let j = first_min_idx(s1);
    lemma_first_min_idx(s1);
    lemma_sum_weights_remove(s, i);
    lemma_sum_weights_remove(s1, j);
    lemma_sum_weights_push(s1.remove(j), merged(s[i], s1[j]));
    lemma_sum_weights_nonneg(s1.remove(j));
    assert(s[i].spec_weight() + s1[j].spec_weight() <= sum_weights(s));
}

/// Greedy merging neither creates nor loses leaves: the finished tree
/// carries exactly the input's leaves and symbols.
pub proof fn lemma_build_tree_leaves(s: Seq<HuffmanTreeNode>)
    requires
        s.len() >= 1,
    ensures
        spec_build_tree(s).num_leaves() == total_leaves(s),
        spec_build_tree(s).leaf_symbols() =~= all_symbols(s),
    decreases s.len(),
{
    if s.len() == 1 {
        assert(s.drop_first() =~= Seq::<HuffmanTreeNode>::empty());
        assert(total_leaves(Seq::<HuffmanTreeNode>::empty()) == 0);
        assert(all_symbols(Seq::<HuffmanTreeNode>::empty()) =~= Set::<u8>::empty());
        assert(spec_build_tree(s) == s[0]);
        assert(s[0].leaf_symbols().union(Set::<u8>::empty()) =~= s[0].leaf_symbols());
    } else {
        lemma_merge_step_len(s);
        lemma_merge_step_preserves(s);
        lemma_build_tree_leaves(merge_step(s));
    }
}

proof fn lemma_num_leaves_pos(t: HuffmanTreeNode)
    ensures
        t.num_leaves() >= 1,
    decreases t,
{
    match t {
        HuffmanTreeNode::Leaf { .. } => {},
        HuffmanTreeNode::Internal { left, right, .. } => {
            lemma_num_leaves_pos(*left);
            lemma_num_leaves_pos(*right);
        },
    }
}

/// The derived code of every leaf is exactly the accumulated prefix plus
/// at most one edge per further leaf, so no code outgrows the leaf count.
pub proof fn lemma_code_len_bound(t: HuffmanTreeNode, prefix: Seq<bool>)
    ensures
        forall|k: u8| #[trigger]
            spec_codes(t, prefix).dom().contains(k) ==> spec_codes(t, prefix)[k].len()
                <= prefix.len() + t.num_leaves(),
    decreases t,
{
    let m = spec_codes(t, prefix);
    match t {
        HuffmanTreeNode::Leaf { symbol, .. } => {
            assert forall|k: u8| #[trigger] m.dom().contains(k) implies m[k].len() <= prefix.len()
                + t.num_leaves() by {
                assert(k == symbol);
                if prefix.len() == 0 {
                    assert(m[k].len() == 1);
                }
            }
        },
        HuffmanTreeNode::Internal { left, right, .. } => {
            lemma_code_len_bound(*left, prefix.push(false));
            lemma_code_len_bound(*right, prefix.push(true));
            lemma_num_leaves_pos(*left);
            lemma_num_leaves_pos(*right);
            let ml = spec_codes(*left, prefix.push(false));
            let mr = spec_codes(*right, prefix.push(true));
            assert forall|k: u8| #[trigger] m.dom().contains(k) implies m[k].len() <= prefix.len()
                + t.num_leaves() by {
                if mr.dom().contains(k) {
                    assert(m[k] == mr[k]);
                } else {
                    assert(ml.dom().contains(k));
                    assert(m[k] == ml[k]);
                }
            }
        },
    }
}

/// Exactly the symbols on the tree's leaves receive a code.
pub proof fn lemma_codes_dom(t: HuffmanTreeNode, prefix: Seq<bool>)
    ensures
        spec_codes(t, prefix).dom() =~= t.leaf_symbols(),
    decreases t,
{
    match t {
        HuffmanTreeNode::Leaf { .. } => {},
        HuffmanTreeNode::Internal { left, right, .. } => {
            lemma_codes_dom(*left, prefix.push(false));
            lemma_codes_dom(*right, prefix.push(true));
        },
    }
}

proof fn lemma_height_lt_leaves(t: HuffmanTreeNode)
    ensures
        t.spec_height() < t.num_leaves(),
    decreases t,
{
    match t {
        HuffmanTreeNode::Leaf { .. } => {},
        HuffmanTreeNode::Internal { left, right, .. } => {
            lemma_height_lt_leaves(*left);
            lemma_height_lt_leaves(*right);
        },
    }
}

pub proof fn lemma_leaves_up_to_props(counts: Seq<u64>, k: int)
    requires
        counts.len() == 256,
        0 <= k <= 256,
    ensures
        leaves_up_to(counts, k).len() <= k,
        total_leaves(leaves_up_to(counts, k)) == leaves_up_to(counts, k).len(),
        all_symbols(leaves_up_to(counts, k)) =~= Set::new(
            |s: u8| (s as int) < k && counts[s as int] > 0,
        ),
        forall|idx: int|
            0 <= idx < leaves_up_to(counts, k).len() ==> #[trigger] leaves_up_to(
                counts,
                k,
            )[idx].well_formed(),
        forall|idx: int|
            #![trigger leaves_up_to(counts, k)[idx]]
            0 <= idx < leaves_up_to(counts, k).len() ==> {
                &&& leaves_up_to(counts, k)[idx] == (HuffmanTreeNode::Leaf {
                    weight: counts[leaves_up_to(counts, k)[idx]->Leaf_symbol as int],
                    symbol: leaves_up_to(counts, k)[idx]->Leaf_symbol,
                })
                &&& (leaves_up_to(counts, k)[idx]->Leaf_symbol as int) < k
                &&& counts[leaves_up_to(counts, k)[idx]->Leaf_symbol as int] > 0
            },
        forall|i1: int, i2: int|
            #![trigger leaves_up_to(counts, k)[i1], leaves_up_to(counts, k)[i2]]
            0 <= i1 < i2 < leaves_up_to(counts, k).len() ==> leaves_up_to(
                counts,
                k,
            )[i1]->Leaf_symbol < leaves_up_to(counts, k)[i2]->Leaf_symbol,
    decreases k,
{
    if k > 0 {
        lemma_leaves_up_to_props(counts, k - 1);
        if counts[k - 1] > 0 {
            let prev = leaves_up_to(counts, k - 1);
            let leaf = HuffmanTreeNode::Leaf { weight: counts[k - 1], symbol: (k - 1) as u8 };
            lemma_total_leaves_push(prev, leaf);
            lemma_all_symbols_push(prev, leaf);
        }
    }
}


/// The concatenation, in input order, of each input symbol's code.
pub open spec fn spec_encode_bits(input: Seq<u8>, m: Map<u8, Seq<bool>>) -> Seq<bool>
    decreases input.len(),
{
    if input.len() == 0 {
        Seq::empty()
    } else {
        m[input[0]] + spec_encode_bits(input.drop_first(), m)
    }
}

pub proof fn lemma_encode_bits_push(input: Seq<u8>, x: u8, m: Map<u8, Seq<bool>>)
    ensures
        spec_encode_bits(input.push(x), m) =~= spec_encode_bits(input, m) + m[x],
    decreases input.len(),
{
    if input.len() == 0 {
        assert(input.push(x).drop_first() =~= Seq::<u8>::empty());
        assert(input.push(x)[0] == x);
        assert(spec_encode_bits(Seq::<u8>::empty(), m) =~= Seq::<bool>::empty());
        assert(spec_encode_bits(input.push(x), m) == m[input.push(x)[0]] + spec_encode_bits(
            input.push(x).drop_first(),
            m,
        ));
        assert(m[x] + Seq::<bool>::empty() =~= m[x]);
        assert(spec_encode_bits(input, m) + m[x] =~= m[x]);
    } else {
        lemma_encode_bits_push(input.drop_first(), x, m);
        assert(input.push(x).drop_first() =~= input.drop_first().push(x));
        assert(input.push(x)[0] == input[0]);
    }
}

pub proof fn lemma_encode_bits_len(input: Seq<u8>, m: Map<u8, Seq<bool>>, c: int)
    requires
        forall|i: int| 0 <= i < input.len() ==> #[trigger] m.dom().contains(input[i]),
        forall|k: u8| #[trigger] m.dom().contains(k) ==> m[k].len() <= c,
        c >= 0,
    ensures
        spec_encode_bits(input, m).len() <= c * input.len(),
    decreases input.len(),
{
    if input.len() > 0 {
        assert forall|i: int| 0 <= i < input.drop_first().len() implies #[trigger] m.dom().contains(
            input.drop_first()[i],
        ) by {
            assert(input.drop_first()[i] == input[i + 1]);
        }
        lemma_encode_bits_len(input.drop_first(), m, c);
        assert(m.dom().contains(input[0]));
        assert(c * input.len() == c + c * (input.len() - 1)) by (nonlinear_arith);
    }
}

/// Maps every input byte through the dictionary and concatenates the
/// resulting codes in input order.
fn encode_symbols(input: &Vec<u8>, dict: &HaffmanCompressedDict) -> (r: HaffmanCompressedCode)
    requires
        forall|i: int|
            0 <= i < input@.len() ==> #[trigger] dict_model(dict@).dom().contains(input@[i]),
        forall|k: u8|
            #[trigger] dict_model(dict@).dom().contains(k) ==> dict_model(dict@)[k].len() <= 256,
        input@.len() * 256 < CODE_BITS_CAP,
    ensures
        code_bits(r) == spec_encode_bits(input@, dict_model(dict@)),
{
    let ghost m = dict_model(dict@);
    let mut acc = code_new();
    let mut i: usize = 0;
    proof {
        assert(input@.take(0) =~= Seq::<u8>::empty());
    }
    while i < input.len()
        invariant
            i <= input@.len(),
            forall|j: int|
                0 <= j < input@.len() ==> #[trigger] dict_model(dict@).dom().contains(input@[j]),
            forall|k: u8|
                #[trigger] dict_model(dict@).dom().contains(k) ==> dict_model(dict@)[k].len()
                    <= 256,
            input@.len() * 256 < CODE_BITS_CAP,
            m == dict_model(dict@),
            code_bits(acc) == spec_encode_bits(input@.take(i as int), m),
        decreases input@.len() - i,
    {
        let sym = input[i];
        let code = match dict.get(&sym) {
            Some(c) => c,
            None => {
                proof {
                    assert(dict_model(dict@).dom().contains(input@[i as int]));
                    assert(false);
                }
                vstd::pervasive::unreached()
            },
        };
        proof {
            assert(dict_model(dict@).dom().contains(sym));
            assert(code_bits(*code) == m[sym]);
            assert forall|j: int| 0 <= j < i implies #[trigger] m.dom().contains(
                input@.take(i as int)[j],
            ) by {
                assert(input@.take(i as int)[j] == input@[j]);
            }
            lemma_encode_bits_len(input@.take(i as int), m, 256);
            assert(256 * i < CODE_BITS_CAP) by (nonlinear_arith)
                requires
                    0 <= i < input@.len(),
                    input@.len() * 256 < CODE_BITS_CAP,
            ;
        }
        code_extend(&mut acc, code);
        i += 1;
        proof {
            assert(input@.take(i as int) =~= input@.take(i - 1).push(input@[i - 1]));
            lemma_encode_bits_push(input@.take(i - 1), input@[i - 1], m);
        }
    }
    proof {
        assert(input@.take(input@.len() as int) =~= input@);
    }
    acc
}

/// Compresses a byte sequence: derives the frequency table, the coding
/// tree and the code dictionary, then concatenates every input byte's
/// code in order and packs the bits.  The tree is returned beside the
/// packed stream, since decoding needs it.  An empty input has no
/// alphabet to build a tree from and is an error.
pub fn encode(input: &Vec<u8>) -> (r: Result<(HuffmanTreeNode, PackedBitstream), HuffmanError>)
    requires
        input@.len() * 256 < CODE_BITS_CAP,
    ensures
        input@.len() == 0 <==> r is Err,
        r matches Err(e) ==> e == HuffmanError::EmptyAlphabet,
        r matches Ok(tp) ==> {
            &&& tp.0 == spec_huffman_tree(input@)
            &&& tp.0.well_formed()
            &&& tp.0.spec_weight() == input@.len()
            &&& tp.1.well_formed()
            &&& tp.1.bits() == spec_encode_bits(
                input@,
                spec_codes(spec_huffman_tree(input@), Seq::<bool>::empty()),
            )
        },
{
    if input.len() == 0 {
        return Err(HuffmanError::EmptyAlphabet);
    }
    let table = build_frequency_table(input);
    let leaves = tree_nodes_from_frequencies(&table);
    let ghost counts = spec_counts(input@);
    proof {
        lemma_count_le_len(input@, input@[0]);
        lemma_leaves_sum(input@, 256);
        lemma_prefix_count_total(input@);
        lemma_leaves_up_to_props(counts, 256);
        lemma_count_positive(input@, 0);
        assert(all_symbols(leaves@).contains(input@[0]));
        if leaves@.len() == 0 {
            assert(all_symbols(leaves@) =~= Set::<u8>::empty());
        }
    }
    let tree = match generate_haffman_tree(leaves) {
        Ok(t) => t,
        Err(e) => {
            return Err(e);
        },
    };
    proof {
        lemma_build_tree_leaves(spec_leaves(input@));
        lemma_height_lt_leaves(tree);
        lemma_codes_dom(tree, Seq::<bool>::empty());
        lemma_code_len_bound(tree, Seq::<bool>::empty());
        assert forall|i: int| 0 <= i < input@.len() implies #[trigger] tree.leaf_symbols().contains(
            input@[i],
        ) by {
            lemma_count_positive(input@, i);
            lemma_count_le_len(input@, input@[i]);
            assert(all_symbols(spec_leaves(input@)).contains(input@[i]));
        }
    }
    let dict = generate_haffman_dic(&tree);
    let bits = encode_symbols(input, &dict);
    proof {
        lemma_encode_bits_len(input@, dict_model(dict@), 256);
        assert(256 * input@.len() == input@.len() * 256) by (nonlinear_arith);
    }
    let packed = pack_bits(&bits);
    Ok((tree, packed))
}

} // verus!
