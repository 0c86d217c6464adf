//! The packed trie of `cchamt`, in the form that is put behind a lock and
//! shared between threads: its entries carry no level, and looking a key up
//! gives the table index alone.
use crate::cchamt::{
    binary_digits, binary_value, index_at, key_fits, lemma_index_at_range, lemma_levels,
    lemma_node_count_grows, lemma_node_count_monotonic, node_count, power_of_two, segment,
    segment_index, shape_fits,
};
use vstd::arithmetic::power2::*;
use vstd::prelude::*;

verus! {

/// A value: it can be copied and compared.
pub trait TrieData: Clone + Copy + Eq + PartialEq {

}

/// Every type that can be copied and compared is a value.
impl<T> TrieData for T where T: Clone + Copy + Eq + PartialEq {

}

/// One entry of the table.
#[derive(PartialEq, Eq, Debug)]
pub struct SubTrie<T: TrieData> {
    pub data: Option<T>,
    depth: usize,
    children_offset: Option<usize>,
}

impl<T: TrieData> SubTrie<T> {
    /// Level of the entry, counted from 0.
    pub closed spec fn depth_spec(&self) -> usize {
        self.depth
    }

    /// Table index of the first child, for an entry that has children.
    pub closed spec fn offset_spec(&self) -> Option<usize> {
        self.children_offset
    }
}

/// Shape of a table of a trie with `levels` levels of `2^seg` children each:
/// the entries of all levels but the last are there, each empty and with its
/// children's place; behind them stand the entries of the last level, each
/// absent or holding a value.
pub closed spec fn table_wf<T: TrieData>(table: Seq<Option<SubTrie<T>>>, levels: nat, seg: nat) -> bool {
    let inner = node_count((levels - 1) as nat, pow2(seg));
    &&& levels >= 1
    &&& inner <= table.len()
    &&& table.len() <= node_count(levels, pow2(seg)) <= usize::MAX
    &&& forall|i: int|
        0 <= i < inner ==> {
            &&& (#[trigger] table[i]) is Some
            &&& table[i]->Some_0.data is None
            &&& table[i]->Some_0.offset_spec() == Some(((i + 1) * pow2(seg)) as usize)
            &&& table[i]->Some_0.depth_spec() == 0
        }
    &&& forall|i: int|
        inner <= i < table.len() && (#[trigger] table[i]) is Some ==> {
            &&& table[i]->Some_0.data is Some
            &&& table[i]->Some_0.offset_spec() is None
            &&& table[i]->Some_0.depth_spec() == 0
        }
}

/// The values that a table holds, by table index.
pub closed spec fn table_values<T: TrieData>(table: Seq<Option<SubTrie<T>>>) -> Map<nat, T> {
    Map::new(
        |i: nat| i < table.len() && table[i as int] is Some && table[i as int]->Some_0.data is Some,
        |i: nat| table[i as int]->Some_0.data->Some_0,
    )
}

/// The trie: its table, and the way keys are cut.
#[derive(Debug)]
pub struct MutexContiguousTrie<T: TrieData> {
    memory: Vec<Option<SubTrie<T>>>,
    key_length: usize,
    key_segment_size: usize,
}

impl<T: TrieData> MutexContiguousTrie<T> {
    /// Number of digits of a key.
    pub closed spec fn key_length_spec(&self) -> nat {
        self.key_length as nat
    }

    /// Number of digits of a segment.
    pub closed spec fn segment_spec(&self) -> nat {
        self.key_segment_size as nat
    }

    /// The table.
    pub closed spec fn table(&self) -> Seq<Option<SubTrie<T>>> {
        self.memory@
    }

    /// Number of levels.
    pub open spec fn levels(&self) -> nat {
        self.key_length_spec() / self.segment_spec()
    }

    /// The table has the shape of a trie for keys cut as this one cuts them.
    pub open spec fn wf(&self) -> bool {
        &&& self.segment_spec() > 0
        &&& self.key_length_spec() % self.segment_spec() == 0
        &&& table_wf(self.table(), self.levels(), self.segment_spec())
    }

    /// The values held, by the table index of their keys.
    pub open spec fn view(&self) -> Map<nat, T> {
        table_values(self.table())
    }

    /// `key` is a key for this trie.
    pub open spec fn valid_key(&self, key: Seq<u8>) -> bool {
        key_fits(key, self.key_length_spec(), self.segment_spec())
    }

    /// Table index of the entry of `key`.
    pub open spec fn leaf_index(&self, key: Seq<u8>) -> nat {
        index_at(key, self.segment_spec(), (self.levels() - 1) as nat)
    }

    /// The value held under `key`.
    pub open spec fn get_spec(&self, key: Seq<u8>) -> Option<T> {
        if self@.contains_key(self.leaf_index(key)) {
            Some(self@[self.leaf_index(key)])
        } else {
            None
        }
    }
}

impl<T: TrieData> MutexContiguousTrie<T> {
    /// A trie without values for keys of `key_length` binary digits, cut into
    /// segments of `key_segment_size` digits.
    pub fn new(key_length: usize, key_segment_size: usize) -> (t: Self)
        requires
            shape_fits(key_length as nat, key_segment_size as nat),
        ensures
            t.wf(),
            t.key_length_spec() == key_length,
            t.segment_spec() == key_segment_size,
            t@ == Map::<nat, T>::empty(),
    {
        let ghost fan = pow2(key_segment_size as nat);
        let ghost levels = key_length as nat / key_segment_size as nat;
        proof {
            lemma_pow2_pos(key_segment_size as nat);
            assert(levels >= 1) by {
                vstd::arithmetic::div_mod::lemma_div_non_zero(
                    key_length as int,
                    key_segment_size as int,
                );
            }
        }
        let rounds: usize = key_length / key_segment_size - 1;
        proof {
            lemma_node_count_monotonic(1, levels, fan);
            assert(node_count(1, fan) == fan * (node_count(0, fan) + 1));
            assert(fan * 1 == fan) by (nonlinear_arith);
        }
        let mut nodes_length: usize = 0;
        let array_length: usize = power_of_two(key_segment_size);
        let mut multitude: usize = array_length;
        let mut round: usize = 0;
        while round < rounds
            invariant
                round <= rounds,
                rounds + 1 == levels,
                fan >= 1,
                array_length == fan,
                node_count(levels, fan) <= usize::MAX,
                nodes_length == node_count(round as nat, fan),
                multitude == node_count((round + 1) as nat, fan) - node_count(round as nat, fan),
            decreases rounds - round,
        {
            proof {
                let a = node_count(round as nat, fan);
                let b = node_count((round + 1) as nat, fan);
                let c = node_count((round + 2) as nat, fan);
                assert(b == fan * (a + 1));
                assert(c == fan * (b + 1));
                assert(c - b == (b - a) * fan) by (nonlinear_arith)
                    requires
                        b == fan * (a + 1),
                        c == fan * (b + 1),
                ;
                lemma_node_count_monotonic((round + 2) as nat, levels, fan);
                lemma_node_count_grows((round + 1) as nat, fan);
                lemma_node_count_grows(round as nat, fan);
            }
            nodes_length += multitude;
            multitude *= array_length;
            round += 1;
        }
        let mut memory: Vec<Option<SubTrie<T>>> = Vec::with_capacity(nodes_length);
        let mut i: usize = 0;
        while i < nodes_length
            invariant
                i <= nodes_length,
                rounds + 1 == levels,
                fan >= 1,
                array_length == fan,
                fan == pow2(key_segment_size as nat),
                node_count(levels, fan) <= usize::MAX,
                nodes_length == node_count(rounds as nat, fan),
                memory@.len() == i,
                forall|j: int|
                    0 <= j < i ==> {
                        &&& (#[trigger] memory@[j]) is Some
                        &&& memory@[j]->Some_0.data is None
                        &&& memory@[j]->Some_0.children_offset == Some(((j + 1) * fan) as usize)
                        &&& memory@[j]->Some_0.depth == 0
                    },
            decreases nodes_length - i,
        {
            proof {
                assert((i + 1) * fan <= node_count(levels, fan)) by {
                    assert(node_count(levels, fan) == fan * (node_count(rounds as nat, fan) + 1));
                    assert((i + 1) * fan <= fan * (nodes_length + 1)) by (nonlinear_arith)
                        requires
                            i < nodes_length,
                            fan >= 1,
                    ;
                }
            }
            memory.push(
                Some(
                    SubTrie {
                        data: None,
                        depth: 0,
                        children_offset: Some((i + 1) * array_length),
                    },
                ),
            );
            i += 1;
        }
        let t = MutexContiguousTrie { memory, key_length, key_segment_size };
        proof {
            lemma_node_count_grows(rounds as nat, fan);
            assert(t@ =~= Map::<nat, T>::empty());
        }
        t
    }

    /// Value of the leading segment of `key`.
    pub fn compute_index(&self, key: &[u8]) -> (id: usize)
        requires
            pow2(self.segment_spec()) <= usize::MAX,
            binary_digits(key@, self.segment_spec()),
        ensures
            id == binary_value(segment(key@, 0, self.segment_spec())),
            id < pow2(self.segment_spec()),
    {
        segment_index(key, self.key_segment_size)
    }

    /// Table index of the entry of `key`.
    pub fn key2index(&self, key: &[u8]) -> (r: usize)
        requires
            self.wf(),
            self.valid_key(key@),
        ensures
            r == self.leaf_index(key@),
            node_count((self.levels() - 1) as nat, pow2(self.segment_spec())) <= r < node_count(
                self.levels(),
                pow2(self.segment_spec()),
            ),
    {
        let ghost seg = self.key_segment_size as nat;
        let ghost fan = pow2(seg);
        let ghost levels = self.levels();
        proof {
            lemma_pow2_pos(seg);
            lemma_node_count_monotonic(1, levels, fan);
            assert(node_count(1, fan) == fan * (node_count(0, fan) + 1));
            assert(fan * 1 == fan) by (nonlinear_arith);
            lemma_levels(self.key_length as nat, seg);
            assert((0 + 1) * seg <= self.key_length) by (nonlinear_arith)
                requires
                    levels >= 1,
                    levels * seg == self.key_length,
            ;
            assert(binary_digits(key@, seg));
            lemma_index_at_range(key@, seg, 0);
            if 1 < levels {
                lemma_node_count_monotonic(1, (levels - 1) as nat, fan);
            }
        }
        let mut current_index: usize = self.compute_index(key);
        let mut key_start: usize = 0;
        let ghost mut depth: nat = 0;
        while self.memory.len() > current_index && self.memory[current_index].is_some()
            invariant
                self.wf(),
                self.valid_key(key@),
                seg == self.key_segment_size,
                fan == pow2(seg),
                fan >= 1,
                fan <= usize::MAX,
                levels == self.levels(),
                levels * seg == self.key_length,
                depth < levels,
                key_start == depth * seg,
                current_index == index_at(key@, seg, depth as nat),
                node_count(depth as nat, fan) <= current_index < node_count((depth + 1) as nat, fan),
                depth + 1 < levels ==> current_index < self.memory@.len()
                    && self.memory@[current_index as int] is Some,
            ensures
                depth + 1 == levels,
                current_index == index_at(key@, seg, depth as nat),
                node_count(depth as nat, fan) <= current_index < node_count((depth + 1) as nat, fan),
            decreases levels - depth,
        {
            match &self.memory[current_index] {
                Some(a) => {
                    match a.children_offset {
                        Some(b) => {
                            proof {
                                // an entry with children lies above the last level
                                if depth + 1 >= levels {
                                    lemma_node_count_monotonic(
                                        (levels - 1) as nat,
                                        depth as nat,
                                        fan,
                                    );
                                }
                                assert(depth + 1 < levels);
                                assert(key_start + seg == (depth + 1) * seg) by (nonlinear_arith)
                                    requires
                                        key_start == depth * seg,
                                ;
                                assert((depth + 1) * seg + seg <= levels * seg) by (nonlinear_arith)
                                    requires
                                        depth + 2 <= levels,
                                ;
                                assert((depth + 1 + 1) * seg == (depth + 1) * seg + seg)
                                    by (nonlinear_arith);
                                lemma_index_at_range(key@, seg, (depth + 1) as nat);
                                lemma_node_count_monotonic((depth + 2) as nat, levels, fan);
                            }
                            key_start += self.key_segment_size;
                            proof {
                                depth = depth + 1;
                            }
                            let rest = vstd::slice::slice_subrange(key, key_start, key.len());
                            proof {
                                assert(segment(rest@, 0, seg) =~= segment(
                                    key@,
                                    key_start as int,
                                    seg,
                                ));
                                assert forall|i: int| 0 <= i < rest@.len() && i < seg implies (
                                #[trigger] rest@[i] == 48 || rest@[i] == 49) by {
                                    assert(rest@[i] == key@[key_start + i]);
                                }
                                assert(b == (current_index + 1) * fan);
                            }
                            current_index = b + self.compute_index(rest);
                            proof {
                                if depth + 1 < levels {
                                    lemma_node_count_monotonic(
                                        (depth + 1) as nat,
                                        (levels - 1) as nat,
                                        fan,
                                    );
                                }
                            }
                        },
                        None => {
                            proof {
                                if depth + 1 < levels {
                                    lemma_node_count_monotonic(
                                        (depth + 1) as nat,
                                        (levels - 1) as nat,
                                        fan,
                                    );
                                }
                            }
                            break ;
                        },
                    }
                },
                None => {
                    break ;
                },
            }
        }
        proof {
            if depth + 1 < levels {
                lemma_node_count_monotonic((depth + 1) as nat, (levels - 1) as nat, fan);
            }
        }
        current_index
    }
}

impl<T: TrieData> MutexContiguousTrie<T> {
    /// Stores `value` under `key`, which holds no value yet.
    pub fn insert(&mut self, value: T, key: &[u8])
        requires
            old(self).wf(),
            old(self).valid_key(key@),
            old(self).get_spec(key@) is None,
        ensures
            final(self).wf(),
            final(self).key_length_spec() == old(self).key_length_spec(),
            final(self).segment_spec() == old(self).segment_spec(),
            final(self)@ == old(self)@.insert(old(self).leaf_index(key@), value),
    {
        let current_index = self.key2index(key);
        let ghost before = self.memory@;
        let ghost levels = self.levels();
        let ghost seg = self.segment_spec();
        if current_index >= self.memory.len() {
            let push_amount: usize = current_index - self.memory.len() + 1;
            let mut pushed: usize = 0;
            while pushed < push_amount
                invariant
                    pushed <= push_amount,
                    push_amount == current_index - before.len() + 1,
                    self.memory@.len() == before.len() + pushed,
                    self.key_length == old(self).key_length,
                    self.key_segment_size == old(self).key_segment_size,
                    forall|j: int| 0 <= j < before.len() ==> self.memory@[j] == before[j],
                    forall|j: int|
                        before.len() <= j < self.memory@.len() ==> (#[trigger] self.memory@[j]) is None,
                decreases push_amount - pushed,
            {
                self.memory.push(None);
                pushed += 1;
            }
        }
        let ghost grown = self.memory@;
        assert(grown[current_index as int] is None) by {
            if current_index < before.len() {
                assert(grown[current_index as int] == before[current_index as int]);
                if before[current_index as int] is Some {
                    assert(old(self)@.contains_key(current_index as nat));
                }
            }
        }
        self.memory.set(
            current_index,
            Some(SubTrie { data: Some(value), depth: 0, children_offset: None }),
        );
        proof {
            let after = self.memory@;
            let inner = node_count((levels - 1) as nat, pow2(seg));
            assert forall|i: int| 0 <= i < inner implies {
                &&& (#[trigger] after[i]) is Some
                &&& after[i]->Some_0.data is None
                &&& after[i]->Some_0.offset_spec() == Some(((i + 1) * pow2(seg)) as usize)
                &&& after[i]->Some_0.depth_spec() == 0
            } by {
                assert(after[i] == before[i]);
            }
            assert forall|i: int| inner <= i < after.len() && (#[trigger] after[i]) is Some implies {
                &&& after[i]->Some_0.data is Some
                &&& after[i]->Some_0.offset_spec() is None
                &&& after[i]->Some_0.depth_spec() == 0
            } by {
                if i != current_index {
                    if i < before.len() {
                        assert(after[i] == before[i]);
                    } else {
                        assert(grown[i] is None);
                    }
                }
            }
            assert(self@ =~= old(self)@.insert(old(self).leaf_index(key@), value)) by {
                assert forall|i: nat| #[trigger]
                    self@.contains_key(i) <==> old(self)@.insert(
                        current_index as nat,
                        value,
                    ).contains_key(i) by {
                    if i != current_index && i < after.len() {
                        if i < before.len() {
                            assert(after[i as int] == before[i as int]);
                        } else {
                            assert(grown[i as int] is None);
                        }
                    }
                }
                assert forall|i: nat| #[trigger] self@.contains_key(i) implies self@[i] == old(
                    self,
                )@.insert(current_index as nat, value)[i] by {
                    if i != current_index {
                        assert(after[i as int] == before[i as int]);
                    }
                }
            }
        }
    }

    /// Whether a value is held under `key`.
    pub fn contain(&self, key: &[u8]) -> (r: bool)
        requires
            self.wf(),
            self.valid_key(key@),
        ensures
            r == self.get_spec(key@).is_some(),
    {
        let current_index = self.key2index(key);
        if self.memory.len() <= current_index {
            return false;
        }
        match &self.memory[current_index] {
            Some(_) => true,
            None => false,
        }
    }

    /// The value held under `key`.
    pub fn get(&self, key: &[u8]) -> (r: Option<T>)
        requires
            self.wf(),
            self.valid_key(key@),
        ensures
            r == self.get_spec(key@),
    {
        let current_index = self.key2index(key);
        if self.memory.len() <= current_index {
            return None;
        }
        match &self.memory[current_index] {
            Some(a) => a.data,
            None => None,
        }
    }
}

} // verus!
