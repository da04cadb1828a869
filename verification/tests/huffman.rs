use entropy_codec::huffman::{self, Tree};
use entropy_codec::util::histogram::hist;

#[test]
fn encoding_test() {
    let input = vec![0_u8, 0, 0, 2, 2, 2, 2, 5, 5, 10, 10, 10, 10, 10, 15];
    let encoded = huffman::encode(&input);
    assert_eq!(
        encoded,
        [
            // SIZE
            1, 0, 0, 0, 1, 1, 0, 0, 0, 0, 0, 0, //
            // TREE
            1, //
            1, //
            0, 0, 0, 0, 0, 0, 0, 0, 0, //
            1, //
            0, 1, 1, 1, 1, 0, 0, 0, 0, //
            0, 1, 0, 1, 0, 0, 0, 0, 0, //
            1, //
            0, 0, 1, 0, 0, 0, 0, 0, 0, //
            0, 0, 1, 0, 1, 0, 0, 0, 0, //
            // DATA
            0, 0, 0, 0, 0, 0, //
            1, 0, 1, 0, 1, 0, 1, 0, //
            0, 1, 1, 0, 1, 1, //
            1, 1, 1, 1, 1, 1, 1, 1, 1, 1, //
            0, 1, 0
        ]
        .iter()
        .map(|b| if *b == 1 { true } else { false })
        .collect::<Vec<bool>>()
    );

    let decoded = huffman::decode(&encoded);
    println!("{:?}", encoded.len());

    assert_eq!(decoded, Ok(input));
}

#[test]
fn compression_test() {
    let input = vec![0_u8, 0, 0, 2, 2, 2, 2, 5, 5, 10, 10, 10, 10, 10, 15];
    let histogram = hist(&input);
    let tree = Tree::new(&histogram);
    let dict = tree.to_dict();
    let output = huffman::compress(&input, &dict).unwrap();
    let decomp = huffman::decompress(&output, &tree);

    println!("Tree: {:?}\n", tree);
    println!("Compression output: {:?}\n", output);
    println!("Decompression output: {:?}", decomp);

    assert_eq!(decomp, Ok(input));
}

#[test]
fn huffman_serialization() {
    let tree = Tree::Inner(
        Box::new(Tree::Inner(Box::new(Tree::Leaf(0)), Box::new(Tree::Leaf(1)))),
        Box::new(Tree::Leaf(2)),
    );
    let binary = tree.serialize();
    assert_eq!(
        binary
            .iter()
            .cloned()
            .map(|bit| if bit { "1" } else { "0" })
            .collect::<Vec<&str>>()
            .concat(),
        "11000000000010000000001000000"
    );
    assert_eq!(Ok(tree), Tree::deserialize(&binary));

    let tree = Tree::Inner(
        Box::new(Tree::Inner(Box::new(Tree::Leaf(0)), Box::new(Tree::Leaf(1)))),
        Box::new(Tree::Inner(Box::new(Tree::Leaf(2)), Box::new(Tree::Leaf(3)))),
    );
    let binary = tree.serialize();
    assert_eq!(
        binary
            .iter()
            .cloned()
            .map(|bit| if bit { "1" } else { "0" })
            .collect::<Vec<&str>>()
            .concat(),
        "110000000000100000001001000000011000000"
    );
    assert_eq!(Ok(tree), Tree::deserialize(&binary));

    let binary = vec![
        true, //
        false, //
        true, false, false, false, false, false, false, false, //
        false, //
        true, true, false, false, false, false, false, false,
    ];
    assert_eq!(
        Ok(Tree::Inner(
            Box::new(Tree::Leaf(1)),
            Box::new(Tree::Leaf(3))
        )),
        Tree::deserialize(&binary)
    );

    let binary = vec![false, false, false, false, false, false, false, false, true];
    assert_eq!(Ok(Tree::Leaf(128)), Tree::deserialize(&binary));

    let binary = vec![true, true, true, true, true, true, true, true, true];
    assert_eq!(Err(()), Tree::deserialize(&binary));

    let binary = vec![false, false, false, false, false, false, false, false];
    assert_eq!(Err(()), Tree::deserialize(&binary));
}

#[test]
fn tree_serialization() {
    let tree = Tree::Inner(
        Box::new(Tree::Inner(Box::new(Tree::Leaf(0)), Box::new(Tree::Leaf(1)))),
        Box::new(Tree::Leaf(2)),
    );
    let binary = tree.serialize();
    assert_eq!(
        binary
            .iter()
            .cloned()
            .map(|bit| if bit { "1" } else { "0" })
            .collect::<Vec<&str>>()
            .concat(),
        "11000000000010000000001000000"
    );
    assert_eq!(Ok(tree), Tree::deserialize(&binary));

    let tree = Tree::Inner(
        Box::new(Tree::Inner(Box::new(Tree::Leaf(0)), Box::new(Tree::Leaf(1)))),
        Box::new(Tree::Inner(Box::new(Tree::Leaf(2)), Box::new(Tree::Leaf(3)))),
    );
    let binary = tree.serialize();
    assert_eq!(
        binary
            .iter()
            .cloned()
            .map(|bit| if bit { "1" } else { "0" })
            .collect::<Vec<&str>>()
            .concat(),
        "110000000000100000001001000000011000000"
    );
    assert_eq!(Ok(tree), Tree::deserialize(&binary));

    let binary = vec![
        true, //
        false, //
        true, false, false, false, false, false, false, false, //
        false, //
        true, true, false, false, false, false, false, false,
    ];
    assert_eq!(
        Ok(Tree::Inner(
            Box::new(Tree::Leaf(1)),
            Box::new(Tree::Leaf(3))
        )),
        Tree::deserialize(&binary)
    );

    let binary = vec![false, false, false, false, false, false, false, false, true];
    assert_eq!(Ok(Tree::Leaf(128)), Tree::deserialize(&binary));

    let binary = vec![true, true, true, true, true, true, true, true, true];
    assert_eq!(Err(()), Tree::deserialize(&binary));

    let binary = vec![false, false, false, false, false, false, false, false];
    assert_eq!(Err(()), Tree::deserialize(&binary));
}

#[test]
fn round_trip_single_symbol() {
    let input = vec![7_u8, 7, 7, 7];
    let encoded = huffman::encode(&input);
    assert_eq!(huffman::decode(&encoded), Ok(input));
}

#[test]
fn round_trip_one_byte() {
    let input = vec![200_u8];
    let encoded = huffman::encode(&input);
    assert_eq!(huffman::decode(&encoded), Ok(input));
}

#[test]
fn round_trip_all_symbols() {
    let mut input: Vec<u8> = Vec::new();
    for v in 0..=255u8 {
        input.push(v);
    }
    let encoded = huffman::encode(&input);
    assert_eq!(huffman::decode(&encoded), Ok(input));
}

#[test]
fn round_trip_long_mixed() {
    // A deterministic pseudo-random stream.
    let mut input: Vec<u8> = Vec::new();
    let mut x: u32 = 1;
    for _ in 0..10000 {
        x = x.wrapping_mul(1103515245).wrapping_add(12345);
        input.push((x >> 16) as u8);
    }
    let encoded = huffman::encode(&input);
    assert_eq!(huffman::decode(&encoded), Ok(input));
}

#[test]
fn reencode_decoded_container() {
    let input = vec![0_u8, 0, 0, 2, 2, 2, 2, 5, 5, 10, 10, 10, 10, 10, 15];
    let container = huffman::encode(&input);
    let decoded = huffman::decode(&container).unwrap();
    let again = huffman::encode(&decoded);
    assert_eq!(again, container);
    assert_eq!(huffman::decode(&again), Ok(input));
}

#[test]
fn dict_is_prefix_free() {
    let input = vec![0_u8, 0, 0, 2, 2, 2, 2, 5, 5, 10, 10, 10, 10, 10, 15];
    let histogram = hist(&input);
    let tree = Tree::new(&histogram);
    let dict = tree.to_dict();
    let mut codes: Vec<Vec<bool>> = Vec::new();
    for sym in 0..=255u8 {
        if let Some(code) = dict.get(sym) {
            codes.push(code.clone());
        }
    }
    assert_eq!(codes.len(), 5);
    for a in 0..codes.len() {
        for b in 0..codes.len() {
            if a != b {
                let ca = &codes[a];
                let cb = &codes[b];
                assert!(!(ca.len() <= cb.len() && *ca == cb[..ca.len()].to_vec()));
            }
        }
    }
}

#[test]
fn single_leaf_dict_code() {
    let tree = Tree::Leaf(42);
    let dict = tree.to_dict();
    assert_eq!(dict.get(42), Some(&vec![false]));
    assert_eq!(dict.get(43), None);
}

#[test]
fn compress_missing_symbol_fails() {
    let input = vec![1_u8, 1, 2];
    let histogram = hist(&input);
    let tree = Tree::new(&histogram);
    let dict = tree.to_dict();
    assert_eq!(huffman::compress(&[3_u8], &dict), Err(()));
}

#[test]
fn decompress_mid_path_fails() {
    let tree = Tree::Inner(
        Box::new(Tree::Inner(Box::new(Tree::Leaf(0)), Box::new(Tree::Leaf(1)))),
        Box::new(Tree::Leaf(2)),
    );
    // A single left edge stops on an inner node.
    assert_eq!(huffman::decompress(&[false], &tree), Err(()));
    // A complete code decodes.
    assert_eq!(huffman::decompress(&[true], &tree), Ok(vec![2_u8]));
}

#[test]
fn decode_empty_payload() {
    // A container of header and tree alone decodes to the empty stream.
    let container = huffman::encode(&[5_u8, 5]);
    assert_eq!(container.len(), 12 + 9 + 2);
    assert_eq!(huffman::decode(&container[..21]), Ok(Vec::new()));
    assert_eq!(huffman::decode(&container), Ok(vec![5_u8, 5]));
}

#[test]
fn single_leaf_tree_emits_per_bit() {
    // Walking a single-leaf tree emits its symbol for every payload bit.
    let tree = Tree::Leaf(9);
    assert_eq!(huffman::decompress(&[true], &tree), Ok(vec![9_u8]));
    assert_eq!(
        huffman::decompress(&[false, false, true], &tree),
        Ok(vec![9_u8, 9, 9])
    );
}

#[test]
fn decode_truncated_containers_fail() {
    // Shorter than the 12-bit header.
    assert_eq!(huffman::decode(&[true; 5]), Err(()));
    // Header promises 49 tree bits, but nothing follows.
    let mut bits = vec![true, false, false, false, true, true, false, false, false, false, false, false];
    assert_eq!(huffman::decode(&bits), Err(()));
    // A malformed tree region of the promised length still fails.
    bits.extend(std::iter::repeat(true).take(49));
    assert_eq!(huffman::decode(&bits), Err(()));
}
