use cchamt::hamt::{compute_index, PARTIAL_KEY};
use cchamt::{IndexStatus, Trie};

#[test]
fn compute_index_counts_the_first_digit_least() {
    assert_eq!(compute_index(b""), 0);
    assert_eq!(compute_index(b"1"), 1);
    assert_eq!(compute_index(b"01"), 2);
    assert_eq!(compute_index(b"1000"), 1);
    assert_eq!(compute_index(b"0001"), 8);
    assert_eq!(compute_index(b"1111"), 15);
    assert_eq!(compute_index(b"11110000"), 15);
}

#[test]
fn new_trie_is_empty() {
    let trie = Trie::<u32>::new();
    assert_eq!(trie.depth(), 0);
    assert_eq!(trie.data, None);
    assert_eq!(trie.get(b"0000"), None);
    assert!(!trie.contain(b"0000"));
    assert_eq!(trie.index_base(b""), IndexStatus::StartingMatch);
    assert_eq!(trie.index_base(b"0000"), IndexStatus::NoMatch);
}

#[test]
fn insert_then_get() {
    let mut trie = Trie::<u32>::new();
    assert_eq!(trie.insert(7, b"10100101"), 1);
    assert_eq!(trie.get(b"10100101"), Some(7));
    assert!(trie.contain(b"10100101"));
    assert_eq!(trie.get(b"1010"), None);
    assert!(!trie.contain(b"10100100"));
    assert_eq!(trie.depth(), 1);
    assert_eq!(trie.index_base(b"10100101"), IndexStatus::FullMatch);
    assert_eq!(trie.index_base(b"1010"), IndexStatus::StartingMatch);
    assert_eq!(trie.index_base(b"0101"), IndexStatus::NoMatch);
    assert_eq!(trie.insert(9, b"10100101"), 1);
    assert_eq!(trie.get(b"10100101"), Some(9));
    assert_eq!(trie.depth(), 2);
}

#[test]
fn insert_with_empty_key_stores_at_the_root() {
    let mut trie = Trie::<u8>::new();
    assert_eq!(trie.insert(3, b""), 1);
    assert_eq!(trie.data, Some(3));
    assert_eq!(trie.get(b""), Some(3));
    assert_eq!(trie.get(b"101"), Some(3));
    assert_eq!(trie.depth(), 0);
    assert_eq!(trie.index_base(b""), IndexStatus::FullMatch);
}

#[test]
fn insert_with_incomplete_group_stores_nothing() {
    let mut trie = Trie::<u8>::new();
    assert_eq!(trie.insert(3, b"101011"), PARTIAL_KEY);
    assert_eq!(PARTIAL_KEY, 9999);
    assert_eq!(trie.get(b"101011"), None);
    assert_eq!(trie.get(b"1010"), None);
    assert_eq!(trie.depth(), 9999);
    assert_eq!(trie.index_base(b"1010"), IndexStatus::StartingMatch);
}

#[test]
fn get_sub_trie_follows_complete_groups() {
    let mut trie = Trie::<u32>::new();
    trie.insert(5, b"00101100");
    let sub = trie.get_sub_trie(b"0010").unwrap();
    assert_eq!(sub.data, None);
    assert_eq!(sub.get(b"1100"), Some(5));
    assert!(trie.get_sub_trie(b"1111").is_none());
    assert_eq!(trie.get_sub_trie(b"001").unwrap().depth(), trie.depth());
}

#[test]
fn delete_key_removes_only_behind_high_indices() {
    let mut trie = Trie::<u32>::new();
    trie.insert(1, b"00100011");
    trie.insert(2, b"10000100");
    trie.delete_key(b"00100011");
    assert_eq!(trie.get(b"00100011"), None);
    trie.delete_key(b"10000100");
    assert_eq!(trie.get(b"10000100"), Some(2));
    let mut root = Trie::<u32>::new();
    root.insert(4, b"");
    root.delete_key(b"");
    assert_eq!(root.data, None);
}
