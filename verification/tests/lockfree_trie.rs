use cchamt::lockfree_cchamt::{
    can_share, level_is_fit, makeanode, node_type_eq, slot_of, tell_apart, Cache, CacheLevel, Node,
    TrieKey, LOW_BITS, MAX_MISSES, NULL,
};
use cchamt::LockfreeTrie;
use std::collections::HashMap;

#[test]
fn empty_trie_holds_nothing() {
    let mut trie = LockfreeTrie::<u64, u64>::new();
    assert_eq!(trie.lookup(&0), None);
    assert_eq!(trie.lookup(&17), None);
}

#[test]
fn single_key() {
    let mut trie = LockfreeTrie::<&str, i32>::new();
    assert!(trie.try_insert("alpha", 1));
    assert_eq!(trie.lookup(&"alpha"), Some(1));
    assert_eq!(trie.lookup(&"beta"), None);
}

#[test]
fn overwrite() {
    let mut trie = LockfreeTrie::<&str, i32>::new();
    assert!(trie.try_insert("x", 10));
    assert!(trie.try_insert("x", 20));
    assert_eq!(trie.lookup(&"x"), Some(20));
}

#[test]
fn insert_twice_is_insert_once() {
    let mut trie = LockfreeTrie::<u64, u64>::new();
    assert!(trie.try_insert(5, 50));
    assert!(trie.try_insert(9, 90));
    let before = trie.sample_levels();
    assert!(trie.try_insert(5, 50));
    assert_eq!(trie.lookup(&5), Some(50));
    assert_eq!(trie.lookup(&9), Some(90));
    assert_eq!(trie.sample_levels(), before);
}

#[test]
fn dense_small_batch() {
    let mut trie = LockfreeTrie::<usize, usize>::new();
    for i in 0..100000 {
        assert!(trie.try_insert(i, i));
    }
    for i in 0..100000 {
        assert_eq!(trie.lookup(&i), Some(i));
    }
    assert_eq!(trie.lookup(&100000), None);
}

#[test]
fn four_workers_disjoint_ranges_taking_turns() {
    let mut trie = LockfreeTrie::<usize, usize>::new();
    for step in 0..25000 {
        for worker in 0..4 {
            let key = worker * 25000 + step;
            assert!(trie.try_insert(key, key));
        }
    }
    for i in 0..100000 {
        assert_eq!(trie.lookup_on(&i, (i % 4) as u64), Some(i));
    }
}

fn keys_sharing_low_bits(count: usize, bits: u64) -> Vec<u64> {
    let mut keys = Vec::new();
    let mask = (1u64 << bits) - 1;
    let mut k: u64 = 0;
    let mut want: Option<u64> = None;
    while keys.len() < count {
        let h = k.hash_code() & mask;
        match want {
            None => {
                want = Some(h);
                keys.push(k);
            }
            Some(w) => {
                if h == w {
                    keys.push(k);
                }
            }
        }
        k += 1;
    }
    keys
}

#[test]
fn collision_at_depth_zero_makes_a_narrow_node() {
    let keys = keys_sharing_low_bits(2, 4);
    let mut trie = LockfreeTrie::<u64, u64>::new();
    assert!(trie.try_insert(keys[0], 1));
    assert_eq!(trie.path_widths(&keys[0]), vec![16]);
    assert!(trie.try_insert(keys[1], 2));
    assert_eq!(trie.lookup(&keys[0]), Some(1));
    assert_eq!(trie.lookup(&keys[1]), Some(2));
    let widths = trie.path_widths(&keys[1]);
    assert_eq!(widths[0], 16);
    assert_eq!(widths[1], 4);
}

#[test]
fn forced_expansion() {
    let keys = keys_sharing_low_bits(5, 4);
    let mut trie = LockfreeTrie::<u64, u64>::new();
    for (i, k) in keys.iter().enumerate() {
        assert!(trie.try_insert(*k, i as u64));
    }
    for (i, k) in keys.iter().enumerate() {
        assert_eq!(trie.lookup(k), Some(i as u64));
    }
    let mut wide_below_root = false;
    for k in keys.iter() {
        let widths = trie.path_widths(k);
        assert_eq!(widths[0], 16);
        if widths.len() > 1 && widths[1..].contains(&16) {
            wide_below_root = true;
        }
    }
    assert!(wide_below_root);
}

#[test]
fn sixteen_keys_into_one_narrow_node() {
    let keys = keys_sharing_low_bits(18, 4);
    let mut trie = LockfreeTrie::<u64, u64>::new();
    for (i, k) in keys.iter().enumerate() {
        assert!(trie.try_insert(*k, 100 + i as u64));
    }
    for (i, k) in keys.iter().enumerate() {
        assert_eq!(trie.lookup(k), Some(100 + i as u64));
    }
    let total: u32 = trie.sample_levels().iter().sum();
    assert_eq!(total, 18);
}

#[test]
fn census_counts_every_key_once() {
    let mut trie = LockfreeTrie::<u32, u8>::new();
    for i in 0..5000u32 {
        assert!(trie.try_insert(i, (i % 251) as u8));
    }
    let total: u32 = trie.sample_levels().iter().sum();
    assert_eq!(total, 5000);
    for i in 0..5000u32 {
        assert_eq!(trie.lookup(&i), Some((i % 251) as u8));
    }
}

#[test]
fn cache_skew() {
    let mut trie = LockfreeTrie::<usize, usize>::new();
    let mut reference = HashMap::new();
    for i in 0..100000 {
        assert!(trie.try_insert(i, i * 3));
        reference.insert(i, i * 3);
    }
    assert_eq!(trie.cache_level(), None);
    let mut state: u64 = 0x9e3779b97f4a7c15;
    for n in 0..1000000usize {
        state = state.wrapping_mul(6364136223846793005).wrapping_add(1442695040888963407);
        let draw = (state >> 33) as usize;
        let key = if draw % 100 < 95 { (draw / 100) % 100 } else { (draw / 100) % 120000 };
        assert_eq!(trie.lookup_on(&key, (n % 2) as u64), reference.get(&key).copied());
    }
    assert!(trie.cache_level().is_some());
    assert!(MAX_MISSES == 2048);
}

#[test]
fn hash_code_is_a_function_of_the_key() {
    assert_eq!(7u64.hash_code(), 7u64.hash_code());
    assert_eq!("alpha".hash_code(), "alpha".hash_code());
    assert!("alpha".same(&"alpha"));
    assert!(!"alpha".same(&"alphb"));
    assert!(!"alpha".same(&"alph"));
    assert!(3usize.same(&3));
    assert!(!3u32.same(&4));
}

fn keys_with_the_same_low_bits(same_root_slot: bool, same_second_group: bool) -> (u64, u64) {
    let mut seen: HashMap<u64, Vec<u64>> = HashMap::new();
    let mut k: u64 = 0;
    while k < 8_000_000 {
        let h = k.hash_code();
        let bucket = seen.entry(h & LOW_BITS).or_default();
        for other in bucket.iter() {
            let o = other.hash_code();
            if (o & 15 == h & 15) == same_root_slot && (o & 0xf0 == h & 0xf0) == same_second_group {
                return (*other, k);
            }
        }
        bucket.push(k);
        k += 1;
    }
    panic!("two keys with the same low bits");
}

#[test]
fn a_key_that_narrow_nodes_cannot_tell_apart_is_refused() {
    let (first, second) = keys_with_the_same_low_bits(true, false);
    assert!(!tell_apart(first.hash_code(), second.hash_code()));
    assert!(!can_share(first.hash_code(), second.hash_code()));
    let mut trie = LockfreeTrie::<u64, u64>::new();
    assert!(trie.admits_key(&first));
    assert!(trie.try_insert(first, 1));
    assert!(trie.admits_key(&first));
    assert!(!trie.admits_key(&second));
    assert!(!trie.try_insert(second, 2));
    assert_eq!(trie.lookup(&first), Some(1));
    assert_eq!(trie.lookup(&second), None);
    assert!(trie.try_insert(first, 3));
    assert_eq!(trie.lookup(&first), Some(3));
}

#[test]
fn keys_that_part_at_the_root_are_both_taken() {
    let (first, second) = keys_with_the_same_low_bits(false, false);
    assert!(!tell_apart(first.hash_code(), second.hash_code()));
    assert!(can_share(first.hash_code(), second.hash_code()));
    let mut trie = LockfreeTrie::<u64, u64>::new();
    assert!(trie.try_insert(first, 1));
    assert!(trie.admits_key(&second));
    assert!(trie.try_insert(second, 2));
    assert_eq!(trie.lookup(&first), Some(1));
    assert_eq!(trie.lookup(&second), Some(2));
    assert_eq!(trie.path_widths(&first), vec![16]);
    assert_eq!(trie.path_widths(&second), vec![16]);
}

#[test]
fn a_narrow_node_below_the_root_turns_wide_for_a_key_it_cannot_tell_apart() {
    let (first, third) = keys_with_the_same_low_bits(true, false);
    let h = first.hash_code();
    let mut second: u64 = 0;
    while second.hash_code() & 15 != h & 15 || second.hash_code() & 0x30 == h & 0x30 {
        second += 1;
    }
    let mut trie = LockfreeTrie::<u64, u64>::new();
    assert!(trie.try_insert(first, 1));
    assert!(!trie.admits_key(&third));
    assert!(trie.try_insert(second, 2));
    assert_eq!(trie.path_widths(&first), vec![16, 4]);
    assert!(trie.admits_key(&third));
    assert!(trie.try_insert(third, 3));
    assert_eq!(trie.path_widths(&first), vec![16, 16]);
    assert_eq!(trie.path_widths(&third), vec![16, 16]);
    assert_eq!(trie.lookup(&first), Some(1));
    assert_eq!(trie.lookup(&second), Some(2));
    assert_eq!(trie.lookup(&third), Some(3));
    assert!(trie.admits_key(&first));
    assert!(trie.try_insert(first, 4));
    assert_eq!(trie.lookup(&first), Some(4));
    assert_eq!(trie.lookup(&third), Some(3));
    assert!(trie.conforms());
    let total: u32 = trie.sample_levels().iter().sum();
    assert_eq!(total, 3);
}

#[test]
fn can_share_looks_at_the_root_slot_and_the_low_bits() {
    assert!(can_share(0x0, 0x4));
    assert!(can_share(0x0, 0x1));
    assert!(can_share(0x0, 0x20));
    assert!(!can_share(0x0, 0x40));
    assert!(!can_share(0x0, 0x8000_0000_0000_00c0));
    assert!(!can_share(7, 7));
}

#[test]
fn a_cache_level_fits_while_its_slots_can_be_counted() {
    assert!(level_is_fit(0));
    assert!(level_is_fit(4));
    assert!(level_is_fit(28));
    assert!(level_is_fit((usize::BITS - 1) as usize));
    assert!(!level_is_fit(usize::BITS as usize));
    assert!(!level_is_fit(200));
    let level = CacheLevel::new(0, 2, NULL);
    assert_eq!(level.nodes.len(), 1);
    let level = CacheLevel::new(16, 2, NULL);
    assert_eq!(level.nodes.len(), 65536);
}

#[test]
fn tell_apart_looks_at_the_low_bits_of_each_group() {
    assert!(tell_apart(0x0, 0x1));
    assert!(tell_apart(0x0, 0x20));
    assert!(!tell_apart(0x0, 0x4));
    assert!(!tell_apart(0x0, 0xcccc_cccc_cccc_cccc));
    assert!(!tell_apart(7, 7));
}

#[test]
fn slot_of_takes_four_bits_per_level() {
    assert_eq!(slot_of(0xabcd, 0, 16), 0xd);
    assert_eq!(slot_of(0xabcd, 4, 16), 0xc);
    assert_eq!(slot_of(0xabcd, 0, 4), 0x1);
    assert_eq!(slot_of(0xabcd, 12, 4), 0x2);
    assert_eq!(slot_of(u64::MAX, 60, 16), 15);
}

#[test]
fn try_insert_inserts_where_it_can() {
    let mut trie = LockfreeTrie::<u32, u32>::new();
    for i in 0..2000u32 {
        assert!(trie.try_insert(i, i + 1));
    }
    for i in 0..2000u32 {
        assert_eq!(trie.lookup(&i), Some(i + 1));
    }
}

#[test]
fn cached_data_nodes_answer_with_the_newest_value() {
    let mut trie = LockfreeTrie::<usize, usize>::new();
    for i in 0..60000 {
        assert!(trie.try_insert(i, i));
    }
    for round in 0..3 {
        for i in 0..60000 {
            assert_eq!(trie.lookup(&i), Some(i + round * 7));
        }
        for i in 0..60000 {
            assert!(trie.try_insert(i, i + (round + 1) * 7));
        }
    }
    assert!(trie.cache_level().is_some());
}

#[test]
fn makeanode_is_empty() {
    let a = makeanode(4);
    assert_eq!(a, vec![NULL; 4]);
    assert_eq!(makeanode(16).len(), 16);
}

#[test]
fn node_type_eq_compares_variants() {
    let a: Node<u64, u64> = Node::ANode(makeanode(4));
    let b: Node<u64, u64> = Node::ANode(makeanode(16));
    let s: Node<u64, u64> = Node::SNode { hash: 1, key: 2, val: 3, txn: 0 };
    assert!(node_type_eq(&a, &b));
    assert!(!node_type_eq(&a, &s));
    assert!(node_type_eq(&Node::<u64, u64>::NoTxn, &Node::NoTxn));
    assert!(!node_type_eq(&Node::<u64, u64>::FSNode, &Node::FVNode));
}

#[test]
fn cache_level_has_two_to_the_level_slots() {
    let level = CacheLevel::new(12, 2, NULL);
    assert_eq!(level.nodes.len(), 4096);
    assert_eq!(level.misses, vec![0, 0]);
    assert_eq!(level.level, 12);
    assert_eq!(level.parent, NULL);
    assert_eq!(level.parent(), None);
    assert_eq!(CacheLevel::new(16, 2, 0).parent(), Some(0));
    let cache = Cache::new();
    assert_eq!(cache.head, NULL);
    assert!(cache.levels.is_empty());
}

#[test]
fn slots_and_txn_words_conform() {
    let mut trie = LockfreeTrie::<u64, u64>::new();
    assert!(trie.conforms());
    for round in 0..3u64 {
        for i in 0..20000u64 {
            assert!(trie.try_insert(i, i + round));
        }
        assert!(trie.conforms());
    }
    let keys = keys_sharing_low_bits(40, 8);
    for k in keys.iter() {
        assert!(trie.try_insert(*k, 1));
        assert!(trie.conforms());
    }
    for i in 0..20000u64 {
        if !keys.contains(&i) {
            assert_eq!(trie.lookup(&i), Some(i + 2));
        }
    }
    assert!(trie.conforms());
}

#[test]
fn histogram_has_an_entry_for_each_depth() {
    let mut trie = LockfreeTrie::<u64, u64>::new();
    assert_eq!(trie.sample_levels(), vec![0; 16]);
    assert!(trie.try_insert(1, 1));
    let mut expected = vec![0; 16];
    expected[0] = 1;
    assert_eq!(trie.sample_levels(), expected);
}

#[test]
fn null_is_no_node() {
    assert!(cchamt::lockfree_cchamt::is_node_null(NULL));
    assert!(!cchamt::lockfree_cchamt::is_node_null(0));
}
