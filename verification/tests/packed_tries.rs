use cchamt::cchamt::{
    count_nodes, get_depth, inner_is_fit, key_is_fit, power_of_two, segment_index, shape_is_fit,
};
use cchamt::{ContiguousTrie, MutexContiguousTrie};

#[test]
fn power_of_two_values() {
    assert_eq!(power_of_two(0), 1);
    assert_eq!(power_of_two(8), 256);
    assert_eq!(power_of_two(24), 16777216);
}

#[test]
fn get_depth_by_level_sizes() {
    assert_eq!(get_depth(8, 0), 0);
    assert_eq!(get_depth(8, 255), 0);
    assert_eq!(get_depth(8, 256), 1);
    assert_eq!(get_depth(8, 256 + 65536 - 1), 1);
    assert_eq!(get_depth(8, 256 + 65536), 2);
    assert_eq!(get_depth(2, 4), 1);
    assert_eq!(get_depth(2, 20), 2);
}

#[test]
fn segment_index_counts_the_first_digit_most() {
    assert_eq!(segment_index(b"", 8), 0);
    assert_eq!(segment_index(b"1", 8), 1);
    assert_eq!(segment_index(b"10", 8), 2);
    assert_eq!(segment_index(b"00000100", 8), 4);
    assert_eq!(segment_index(b"1111111100000000", 8), 255);
    assert_eq!(segment_index(b"101", 2), 2);
}

#[test]
fn compute_index_and_key2index() {
    let trie = ContiguousTrie::<u8>::new(4, 2);
    assert_eq!(trie.compute_index(b"1101"), 3);
    assert_eq!(trie.key2index(b"0000"), (4, 1));
    assert_eq!(trie.key2index(b"0011"), (7, 1));
    assert_eq!(trie.key2index(b"1101"), ((3 + 1) * 4 + 1, 1));
    let shared = MutexContiguousTrie::<u8>::new(4, 2);
    assert_eq!(shared.compute_index(b"10"), 2);
    assert_eq!(shared.key2index(b"1101"), 17);
}

#[test]
fn small_trie_holds_every_key() {
    let mut trie = ContiguousTrie::<u32>::new(6, 2);
    let mut shared = MutexContiguousTrie::<u32>::new(6, 2);
    for i in 0..64u32 {
        let key = format!("{:06b}", i).into_bytes();
        assert!(!trie.contain(&key));
        assert_eq!(trie.get(&key), None);
        assert!(!shared.contain(&key));
        trie.insert(i + 100, &key);
        shared.insert(i + 200, &key);
    }
    for i in 0..64u32 {
        let key = format!("{:06b}", i).into_bytes();
        assert!(trie.contain(&key));
        assert_eq!(trie.get(&key), Some(i + 100));
        assert!(shared.contain(&key));
        assert_eq!(shared.get(&key), Some(i + 200));
    }
}

#[test]
fn insert_from_text_skips_the_prefix() {
    let mut trie = ContiguousTrie::<usize>::new(32, 8);
    trie.insert_(9, format!("{:#034b}", 9));
    let key = format!("{:032b}", 9).into_bytes();
    assert!(trie.contain(&key));
    assert_eq!(trie.get(&key), Some(9));
    let other = format!("{:032b}", 10).into_bytes();
    assert!(!trie.contain(&other));
}

#[test]
fn one_level_trie() {
    let mut trie = ContiguousTrie::<u8>::new(2, 2);
    assert_eq!(trie.key2index(b"10"), (2, 0));
    trie.insert(1, b"10");
    assert_eq!(trie.get(b"10"), Some(1));
    assert_eq!(trie.get(b"11"), None);
}

#[test]
fn count_nodes_adds_up_the_levels() {
    assert_eq!(count_nodes(0, 4), Some(0));
    assert_eq!(count_nodes(1, 4), Some(16));
    assert_eq!(count_nodes(2, 4), Some(272));
    assert_eq!(count_nodes(4, 8), Some(4311810304));
    assert_eq!(count_nodes(3, 1), Some(14));
    assert_eq!(count_nodes(1, 64), None);
    assert_eq!(count_nodes(16, 4), None);
    assert_eq!(count_nodes(0, 200), Some(0));
}

#[test]
fn shape_is_fit_asks_for_whole_segments_and_a_table_that_can_be_indexed() {
    assert!(shape_is_fit(32, 8));
    assert!(shape_is_fit(8, 8));
    assert!(shape_is_fit(2, 2));
    assert!(!shape_is_fit(32, 0));
    assert!(!shape_is_fit(4, 8));
    assert!(!shape_is_fit(32, 5));
    assert!(!shape_is_fit(64, 4));
    assert!(!shape_is_fit(128, 64));
    assert!(inner_is_fit(32, 8));
    assert!(inner_is_fit(8, 8));
    assert!(!inner_is_fit(40, 8));
    assert!(!inner_is_fit(8, 0));
}

#[test]
fn key_is_fit_asks_for_binary_digits_up_to_the_last_segment() {
    assert!(key_is_fit(b"10100101", 8, 4));
    assert!(key_is_fit(b"1010", 8, 4));
    assert!(key_is_fit(b"101001011", 8, 4));
    assert!(key_is_fit(b"10100101x", 8, 4));
    assert!(!key_is_fit(b"101", 8, 4));
    assert!(!key_is_fit(b"1010010x", 8, 4));
    assert!(!key_is_fit(b"1210", 8, 4));
    assert!(key_is_fit(b"", 4, 4));
}
