use prefix_codes::alphabet::make_alphabet;
use prefix_codes::encoder::{encode_sequence, lookup_index};
use prefix_codes::fixed::make_simple_dict;
use prefix_codes::huffman::{make_haffman_dict, make_haffman_tree, HaffmanNode};
use prefix_codes::shannon::{build_shennon_tree, make_shennon_dict};
use prefix_codes::stats::{calc_minimum_binary_code, min_binary_code_total};

fn strings(v: &[&str]) -> Vec<String> {
    v.iter().map(|s| s.to_string()).collect()
}

fn assert_prefix_free(codes: &[String]) {
    for i in 0..codes.len() {
        for j in 0..codes.len() {
            if i != j {
                assert!(!codes[j].starts_with(codes[i].as_str()), "{:?} prefixes {:?}", codes[i], codes[j]);
            }
        }
    }
}

#[test]
fn alphabet_of_sample_sequence() {
    assert_eq!(make_alphabet(&[0, 0, 0, 1]), vec![(0, 3), (1, 1)]);
}

#[test]
fn alphabet_is_ascending_by_symbol() {
    assert_eq!(make_alphabet(&[200, 7, 200, 3, 7, 200]), vec![(3, 1), (7, 2), (200, 3)]);
}

#[test]
fn alphabet_of_empty_sequence_is_empty() {
    assert_eq!(make_alphabet(&[]), Vec::<(u8, u8)>::new());
}

#[test]
fn alphabet_counts_up_to_byte_limit() {
    let src = vec![9u8; 255];
    assert_eq!(make_alphabet(&src), vec![(9, 255)]);
}

#[test]
fn alphabet_total_equals_sequence_length() {
    let src: Vec<u8> = (0..128u32).map(|x| ((x * 37) % 11 * 20) as u8).collect();
    let a = make_alphabet(&src);
    let total: usize = a.iter().map(|e| e.1 as usize).sum();
    assert_eq!(total, src.len());
}

#[test]
fn minimum_bits_values() {
    assert_eq!(calc_minimum_binary_code(0), 1);
    assert_eq!(calc_minimum_binary_code(1), 1);
    assert_eq!(calc_minimum_binary_code(2), 2);
    assert_eq!(calc_minimum_binary_code(5), 3);
    assert_eq!(calc_minimum_binary_code(127), 7);
    assert_eq!(calc_minimum_binary_code(128), 8);
    assert_eq!(calc_minimum_binary_code(255), 8);
}

#[test]
fn min_binary_code_total_sums_widths() {
    let a = vec![(0u8, 1u8); 4];
    assert_eq!(min_binary_code_total(&a), 1 + 1 + 2 + 2);
    let empty: Vec<(u8, u8)> = Vec::new();
    assert_eq!(min_binary_code_total(&empty), 0);
}

#[test]
fn fixed_codes_for_five_symbols() {
    let a = vec![(1, 1), (2, 1), (3, 1), (4, 1), (5, 1)];
    assert_eq!(make_simple_dict(&a), strings(&["000", "001", "010", "011", "100"]));
}

#[test]
fn fixed_codes_for_four_symbols_use_three_bits() {
    let a = vec![(1, 1), (2, 1), (3, 1), (4, 1)];
    assert_eq!(make_simple_dict(&a), strings(&["000", "001", "010", "011"]));
}

#[test]
fn fixed_code_for_single_symbol() {
    assert_eq!(make_simple_dict(&[(42, 4)]), strings(&["0"]));
}

#[test]
fn fixed_codes_for_full_byte_alphabet_wrap_width() {
    let a: Vec<(u8, u8)> = (0..=255u8).map(|v| (v, 1)).collect();
    let d = make_simple_dict(&a);
    assert_eq!(d.len(), 256);
    assert_eq!(d[0], "0");
    assert_eq!(d[2], "10");
    assert_eq!(d[255], "11111111");
}

#[test]
fn shannon_codes_for_four_symbols() {
    let a = vec![(1, 5), (2, 1), (3, 1), (4, 9)];
    assert_eq!(make_shennon_dict(&a), strings(&["00", "01", "10", "11"]));
}

#[test]
fn shannon_codes_for_three_symbols() {
    let a = vec![(1, 5), (2, 1), (3, 1)];
    assert_eq!(make_shennon_dict(&a), strings(&["00", "01", "1"]));
}

#[test]
fn shannon_code_for_single_symbol_is_empty() {
    assert_eq!(make_shennon_dict(&[(7, 3)]), strings(&[""]));
}

#[test]
fn shannon_subrange_keeps_other_entries() {
    let mut result = strings(&["a", "b", "c", "d", "e"]);
    build_shennon_tree(1, 3, "x", &mut result);
    assert_eq!(result, strings(&["a", "x00", "x01", "x1", "e"]));
    build_shennon_tree(3, 2, "y", &mut result);
    assert_eq!(result, strings(&["a", "x00", "x01", "x1", "e"]));
}

#[test]
fn shannon_codes_are_prefix_free() {
    let a: Vec<(u8, u8)> = (0..13u8).map(|v| (v, v + 1)).collect();
    assert_prefix_free(&make_shennon_dict(&a));
}

#[test]
fn huffman_codes_for_sample_alphabet() {
    assert_eq!(make_haffman_dict(&[(0, 3), (1, 1)]), strings(&["0", "1"]));
}

#[test]
fn huffman_code_for_single_symbol_is_empty() {
    assert_eq!(make_haffman_dict(&[(5, 9)]), strings(&[""]));
}

#[test]
fn huffman_selection_follows_scan_rule() {
    // weights 1, 5, 3: the scan keeps 5 and 3, which merge first
    assert_eq!(make_haffman_dict(&[(10, 1), (11, 5), (12, 3)]), strings(&["0", "10", "11"]));
}

#[test]
fn huffman_codes_are_prefix_free() {
    let a: Vec<(u8, u8)> = vec![(0, 5), (1, 1), (2, 1), (3, 2), (4, 3), (5, 8), (6, 1)];
    let d = make_haffman_dict(&a);
    assert_eq!(d.len(), a.len());
    assert_prefix_free(&d);
}

#[test]
fn huffman_builder_is_repeatable() {
    let a: Vec<(u8, u8)> = vec![(0, 2), (1, 2), (2, 2), (3, 2), (4, 7)];
    assert_eq!(make_haffman_dict(&a), make_haffman_dict(&a));
    assert_eq!(make_shennon_dict(&a), make_shennon_dict(&a));
    assert_eq!(make_simple_dict(&a), make_simple_dict(&a));
}

#[test]
fn huffman_tree_root_weight_is_total() {
    let mut nodes = vec![HaffmanNode::Leaf(4, 0), HaffmanNode::Leaf(2, 1), HaffmanNode::Leaf(7, 2)];
    let root = make_haffman_tree(&mut nodes);
    assert_eq!(root.weight(), 13);
    assert!(nodes.is_empty());
    match root {
        HaffmanNode::Node(_, left, right) => {
            assert_eq!(left.weight(), 7);
            assert_eq!(right.weight(), 6);
        }
        HaffmanNode::Leaf(_, _) => panic!("expected an internal root"),
    }
}

#[test]
fn lookup_finds_first_matching_entry() {
    let a = vec![(3, 1), (7, 2), (7, 5), (9, 1)];
    assert_eq!(lookup_index(&a, 3), 0);
    assert_eq!(lookup_index(&a, 7), 1);
    assert_eq!(lookup_index(&a, 9), 3);
}

#[test]
fn encode_sample_with_huffman_codes() {
    let src = [0u8, 0, 0, 1];
    let a = make_alphabet(&src);
    let d = make_haffman_dict(&a);
    let (stream, bits) = encode_sequence(&src, &d, &a);
    assert_eq!(stream, "0001");
    assert_eq!(bits, 4);
}

#[test]
fn encode_sample_with_fixed_codes() {
    let src = [0u8, 0, 0, 1];
    let a = make_alphabet(&src);
    let d = make_simple_dict(&a);
    assert_eq!(d, strings(&["00", "01"]));
    let (stream, bits) = encode_sequence(&src, &d, &a);
    assert_eq!(stream, "00000001");
    assert_eq!(bits, 8);
}

#[test]
fn encode_empty_sequence() {
    let a = vec![(1, 1)];
    let d = strings(&["0"]);
    let (stream, bits) = encode_sequence(&[], &d, &a);
    assert_eq!(stream, "");
    assert_eq!(bits, 0);
}
