use huffcode::bits::{
    bit_at, code_extend, code_get, code_is_empty, code_len, code_new, code_push, pack_bits,
    unpack_bits, HaffmanCompressedCode, PackedBitstream,
};
use huffcode::errors::HuffmanError;
use huffcode::huffman_compress::{
    build_frequency_table, decode, encode, generate_haffman_dic, generate_haffman_tree,
    generate_haffman_tree_nodes, tree_nodes_from_frequencies, HuffmanTreeNode,
};

fn code_bits_vec(c: &HaffmanCompressedCode) -> Vec<bool> {
    let mut out = Vec::new();
    let n = code_len(c);
    let mut i = 0;
    while i < n {
        out.push(code_get(c, i));
        i += 1;
    }
    out
}

fn stream_bits_vec(p: &PackedBitstream) -> Vec<bool> {
    let mut out = Vec::new();
    let mut i = 0;
    while i < p.bit_count {
        out.push(bit_at(p, i));
        i += 1;
    }
    out
}

#[test]
fn round_trip_simple() {
    let input: Vec<u8> = b"the quick brown fox jumps over the lazy dog".to_vec();
    let (tree, packed) = encode(&input).unwrap();
    let output = decode(&tree, &packed).unwrap();
    assert_eq!(output, input);
}

#[test]
fn round_trip_all_byte_values() {
    let mut input: Vec<u8> = Vec::new();
    for round in 0..3u16 {
        for b in 0..=255u8 {
            input.push(b);
            if round == 0 && b % 7 == 0 {
                input.push(b);
            }
        }
    }
    let (tree, packed) = encode(&input).unwrap();
    let output = decode(&tree, &packed).unwrap();
    assert_eq!(output, input);
}

#[test]
fn empty_input_is_empty_alphabet() {
    let input: Vec<u8> = Vec::new();
    assert_eq!(encode(&input).unwrap_err(), HuffmanError::EmptyAlphabet);
}

#[test]
fn empty_node_set_is_empty_alphabet() {
    let nodes: Vec<HuffmanTreeNode> = Vec::new();
    assert_eq!(
        generate_haffman_tree(nodes).unwrap_err(),
        HuffmanError::EmptyAlphabet
    );
}

#[test]
fn degenerate_single_symbol() {
    // ten repetitions of byte 0x41: the tree is one leaf, its code is the
    // single bit 0, and the packed stream is exactly ten 0 bits
    let input: Vec<u8> = vec![0x41; 10];
    let (tree, packed) = encode(&input).unwrap();
    assert_eq!(
        tree,
        HuffmanTreeNode::Leaf {
            weight: 10,
            symbol: 0x41
        }
    );
    let dict = generate_haffman_dic(&tree);
    let code = dict.get(&0x41).unwrap();
    assert_eq!(code_bits_vec(code), vec![false]);
    assert_eq!(packed.bit_count, 10);
    assert_eq!(stream_bits_vec(&packed), vec![false; 10]);
    assert_eq!(packed.bytes, vec![0u8, 0u8]);
    let output = decode(&tree, &packed).unwrap();
    assert_eq!(output, input);
}

#[test]
fn demonstration_weights_tree_shape() {
    // weights {A:10, B:20, C:25}: A and B merge first (A left, B right),
    // then C joins as the left child of the root
    let nodes = generate_haffman_tree_nodes();
    let tree = generate_haffman_tree(nodes).unwrap();
    let expected = HuffmanTreeNode::Internal {
        weight: 55,
        left: Box::new(HuffmanTreeNode::Leaf {
            weight: 25,
            symbol: b'C',
        }),
        right: Box::new(HuffmanTreeNode::Internal {
            weight: 30,
            left: Box::new(HuffmanTreeNode::Leaf {
                weight: 10,
                symbol: b'A',
            }),
            right: Box::new(HuffmanTreeNode::Leaf {
                weight: 20,
                symbol: b'B',
            }),
        }),
    };
    assert_eq!(tree, expected);
    assert_eq!(tree.weight(), 55);
}

#[test]
fn tie_break_stability() {
    // the same weighted symbols in the same insertion order, twice: the
    // trees and the code tables must be identical
    let tree1 = generate_haffman_tree(generate_haffman_tree_nodes()).unwrap();
    let tree2 = generate_haffman_tree(generate_haffman_tree_nodes()).unwrap();
    assert_eq!(tree1, tree2);
    let dict1 = generate_haffman_dic(&tree1);
    let dict2 = generate_haffman_dic(&tree2);
    assert_eq!(dict1.len(), dict2.len());
    for sym in [b'A', b'B', b'C'] {
        let c1 = dict1.get(&sym).unwrap();
        let c2 = dict2.get(&sym).unwrap();
        assert_eq!(code_bits_vec(c1), code_bits_vec(c2));
    }
}

#[test]
fn compression_sanity_code_lengths() {
    // skewed weights {A:10, B:20, C:25}: the lowest-weight symbol's code
    // is no shorter than the highest-weight symbol's code
    let tree = generate_haffman_tree(generate_haffman_tree_nodes()).unwrap();
    let dict = generate_haffman_dic(&tree);
    let code_a = code_bits_vec(dict.get(&b'A').unwrap());
    let code_b = code_bits_vec(dict.get(&b'B').unwrap());
    let code_c = code_bits_vec(dict.get(&b'C').unwrap());
    assert!(code_a.len() >= code_c.len());
    assert_eq!(code_c, vec![false]);
    assert_eq!(code_a, vec![true, false]);
    assert_eq!(code_b, vec![true, true]);
}

#[test]
fn weight_conservation() {
    // the root's weight equals the sum of all input symbol frequencies
    let input: Vec<u8> = b"abracadabra".to_vec();
    let (tree, _) = encode(&input).unwrap();
    assert_eq!(tree.weight(), input.len() as u64);

    let tree2 = generate_haffman_tree(generate_haffman_tree_nodes()).unwrap();
    assert_eq!(tree2.weight(), 10 + 20 + 25);
}

#[test]
fn truncation_detection() {
    // "aabbccca": the final symbol's code is two bits, so a stream one
    // bit short strands the decoder mid-walk
    let input: Vec<u8> = b"aabbccca".to_vec();
    let (tree, packed) = encode(&input).unwrap();
    assert!(packed.bit_count > 1);
    let shorter = unpack_bits(&packed, packed.bit_count - 1).unwrap();
    let truncated = pack_bits(&shorter);
    assert_eq!(truncated.bit_count, packed.bit_count - 1);
    assert_eq!(
        decode(&tree, &truncated).unwrap_err(),
        HuffmanError::TruncatedStream
    );
}

#[test]
fn unpack_beyond_count_is_an_error() {
    let input: Vec<u8> = b"abc".to_vec();
    let (_, packed) = encode(&input).unwrap();
    assert!(matches!(
        unpack_bits(&packed, packed.bit_count + 1),
        Err(HuffmanError::BitRequestOutOfRange)
    ));
    assert!(unpack_bits(&packed, packed.bit_count).is_ok());
}

#[test]
fn pack_and_unpack_bits_exactly() {
    let mut code = code_new();
    assert!(code_is_empty(&code));
    let pattern = [true, false, true, true, false, false, true, false, true];
    for &b in pattern.iter() {
        code_push(&mut code, b);
    }
    assert!(!code_is_empty(&code));
    assert_eq!(code_len(&code), 9);
    let packed = pack_bits(&code);
    assert_eq!(packed.bit_count, 9);
    // the first byte is 10110010, the second the final 1 bit then zero padding
    assert_eq!(packed.bytes, vec![0xB2, 0x80]);
    for (i, &b) in pattern.iter().enumerate() {
        assert_eq!(bit_at(&packed, i), b);
    }
    let unpacked = unpack_bits(&packed, 9).unwrap();
    assert_eq!(code_bits_vec(&unpacked), pattern.to_vec());
    let prefix = unpack_bits(&packed, 4).unwrap();
    assert_eq!(code_bits_vec(&prefix), vec![true, false, true, true]);
}

#[test]
fn code_extend_concatenates() {
    let mut a = code_new();
    code_push(&mut a, true);
    code_push(&mut a, false);
    let mut b = code_new();
    code_push(&mut b, false);
    code_push(&mut b, true);
    code_extend(&mut a, &b);
    assert_eq!(code_bits_vec(&a), vec![true, false, false, true]);
}

#[test]
fn frequency_table_counts() {
    let input: Vec<u8> = b"abbccc".to_vec();
    let table = build_frequency_table(&input);
    assert_eq!(table.counts.len(), 256);
    assert_eq!(table.counts[b'a' as usize], 1);
    assert_eq!(table.counts[b'b' as usize], 2);
    assert_eq!(table.counts[b'c' as usize], 3);
    assert_eq!(table.counts[b'd' as usize], 0);
    let leaves = tree_nodes_from_frequencies(&table);
    assert_eq!(
        leaves,
        vec![
            HuffmanTreeNode::Leaf {
                weight: 1,
                symbol: b'a'
            },
            HuffmanTreeNode::Leaf {
                weight: 2,
                symbol: b'b'
            },
            HuffmanTreeNode::Leaf {
                weight: 3,
                symbol: b'c'
            },
        ]
    );
}

#[test]
fn dictionary_covers_exactly_the_input_symbols() {
    let input: Vec<u8> = b"mississippi".to_vec();
    let (tree, _) = encode(&input).unwrap();
    let dict = generate_haffman_dic(&tree);
    assert_eq!(dict.len(), 4);
    for sym in [b'm', b'i', b's', b'p'] {
        assert!(dict.get(&sym).is_some());
    }
    assert!(dict.get(&b'x').is_none());
}

#[test]
fn decode_empty_stream_is_empty() {
    let input: Vec<u8> = vec![7u8; 3];
    let (tree, _) = encode(&input).unwrap();
    let empty = pack_bits(&code_new());
    assert_eq!(empty.bit_count, 0);
    assert_eq!(empty.bytes, Vec::<u8>::new());
    assert_eq!(decode(&tree, &empty).unwrap(), Vec::<u8>::new());
}

#[test]
fn prefix_free_codes_in_practice() {
    let input: Vec<u8> = b"a few symbols, skewed: aaaaaeeeee  tttt nn".to_vec();
    let (tree, _) = encode(&input).unwrap();
    let dict = generate_haffman_dic(&tree);
    let codes: Vec<Vec<bool>> = dict.values().map(code_bits_vec).collect();
    for (i, a) in codes.iter().enumerate() {
        for (j, b) in codes.iter().enumerate() {
            if i != j {
                assert!(!(a.len() <= b.len() && &b[..a.len()] == &a[..]));
            }
        }
    }
}

#[test]
fn rarer_symbols_get_no_shorter_codes() {
    let input: Vec<u8> = b"mississippi".to_vec();
    // counts: m:1, p:2, i:4, s:4
    let (tree, _) = encode(&input).unwrap();
    let dict = generate_haffman_dic(&tree);
    let len_m = code_len(dict.get(&b'm').unwrap());
    let len_p = code_len(dict.get(&b'p').unwrap());
    let len_i = code_len(dict.get(&b'i').unwrap());
    let len_s = code_len(dict.get(&b's').unwrap());
    assert!(len_m >= len_p);
    assert!(len_p >= len_i);
    assert!(len_p >= len_s);
}
