//! A trie over keys of binary digits, packed into one contiguous table.
//!
//! A key is cut into segments of a fixed number of digits. The nodes of all
//! levels but the last are laid out in advance, level after level, and each
//! knows where its children start; the entries of the last level are added to
//! the table as they are inserted.
use vstd::arithmetic::power2::*;
use vstd::prelude::*;
use vstd::string::StringSliceAdditionalSpecFns;

verus! {

/// A value: it can be copied and compared.
pub trait TrieData: Clone + Copy + Eq + PartialEq {

}

/// Every type that can be copied and compared is a value.
impl<T> TrieData for T where T: Clone + Copy + Eq + PartialEq {

}

/// Number of table entries taken by the first `levels` levels of a trie in
/// which every node has `fan` children: `fan + fan^2 + .. + fan^levels`.
pub open spec fn node_count(levels: nat, fan: nat) -> nat
    decreases levels,
{
    if levels == 0 {
        0
    } else {
        fan * (node_count((levels - 1) as nat, fan) + 1)
    }
}

/// Value of a string of binary digits, the first digit being the most
/// significant.
pub open spec fn binary_value(digits: Seq<u8>) -> nat
    decreases digits.len(),
{
    if digits.len() == 0 {
        0
    } else {
        (2 * binary_value(digits.drop_last()) + (digits.last() - 48)) as nat
    }
}

/// The digits of `key` from `start` on, `seg` of them at most.
pub open spec fn segment(key: Seq<u8>, start: int, seg: nat) -> Seq<u8> {
    if start >= key.len() {
        Seq::empty()
    } else if start + seg <= key.len() {
        key.subrange(start, start + seg)
    } else {
        key.subrange(start, key.len() as int)
    }
}

/// Every one of the first `n` digits of `key` that exist is `0` or `1`.
pub open spec fn binary_digits(key: Seq<u8>, n: nat) -> bool {
    forall|i: int| 0 <= i < key.len() && i < n ==> (#[trigger] key[i] == 48 || key[i] == 49)
}

/// Table index of the node that the first `depth + 1` segments of `key` lead
/// to.
pub open spec fn index_at(key: Seq<u8>, seg: nat, depth: nat) -> nat
    decreases depth,
{
    if depth == 0 {
        binary_value(segment(key, 0, seg))
    } else {
        (index_at(key, seg, (depth - 1) as nat) + 1) * pow2(seg) + binary_value(
            segment(key, (depth * seg) as int, seg),
        )
    }
}

/// Each level more takes at least `fan` entries more.
pub proof fn lemma_node_count_grows(levels: nat, fan: nat)
    requires
        fan >= 1,
    ensures
        node_count(levels, fan) + fan <= node_count(levels + 1, fan),
        node_count(levels, fan) >= levels,
    decreases levels,
{
    if levels > 0 {
        lemma_node_count_grows((levels - 1) as nat, fan);
        let a = node_count((levels - 1) as nat, fan);
        let b = node_count(levels, fan);
        assert(b == fan * (a + 1));
        assert(node_count(levels + 1, fan) == fan * (b + 1));
        assert(fan * (b + 1) == fan * b + fan) by (nonlinear_arith);
        assert(fan * b >= b) by (nonlinear_arith)
            requires
                fan >= 1,
        ;
        assert(fan * (a + 1) >= a + 1) by (nonlinear_arith)
            requires
                fan >= 1,
        ;
    } else {
        assert(node_count(1, fan) == fan * (node_count(0, fan) + 1));
        assert(fan * 1 == fan) by (nonlinear_arith);
    }
}

/// More levels take more entries.
pub proof fn lemma_node_count_monotonic(a: nat, b: nat, fan: nat)
    requires
        fan >= 1,
        a <= b,
    ensures
        node_count(a, fan) <= node_count(b, fan),
        a < b ==> node_count(a, fan) + fan <= node_count(b, fan),
    decreases b - a,
{
    if a < b {
        lemma_node_count_monotonic(a, (b - 1) as nat, fan);
        lemma_node_count_grows((b - 1) as nat, fan);
    }
}

/// A string of `n` binary digits has a value below `2^n`.
pub proof fn lemma_binary_value_bound(digits: Seq<u8>)
    requires
        binary_digits(digits, digits.len()),
    ensures
        binary_value(digits) < pow2(digits.len()),
    decreases digits.len(),
{
    lemma2_to64();
    if digits.len() > 0 {
        let front = digits.drop_last();
        assert forall|i: int| 0 <= i < front.len() implies (#[trigger] front[i] == 48 || front[i]
            == 49) by {
            assert(front[i] == digits[i]);
        }
        lemma_binary_value_bound(front);
        lemma_pow2_unfold(digits.len());
        assert(digits.last() == digits[digits.len() - 1]);
    }
}

/// Two to the power `exp`.
pub fn power_of_two(exp: usize) -> (r: usize)
    requires
        pow2(exp as nat) <= usize::MAX,
    ensures
        r == pow2(exp as nat),
{
    let mut r: usize = 1;
    let mut i: usize = 0;
    proof {
        lemma2_to64();
    }
    while i < exp
        invariant
            i <= exp,
            r == pow2(i as nat),
            pow2(exp as nat) <= usize::MAX,
        decreases exp - i,
    {
        proof {
            lemma_pow2_unfold((i + 1) as nat);
            if i + 1 < exp {
                lemma_pow2_strictly_increases((i + 1) as nat, exp as nat);
            }
        }
        r = r * 2;
        i += 1;
    }
    r
}

/// The level of the table entry `index`, counted from 0, in a trie whose
/// nodes have `2^key_group` children.
pub fn get_depth(key_group: usize, index: usize) -> (depth: usize)
    requires
        forall|d: nat| #[trigger]
            node_count(d, pow2(key_group as nat)) <= index ==> node_count(
                d + 1,
                pow2(key_group as nat),
            ) <= u32::MAX,
    ensures
        node_count(depth as nat, pow2(key_group as nat)) <= index,
        index < node_count((depth + 1) as nat, pow2(key_group as nat)),
{
    let ghost fan = pow2(key_group as nat);
    proof {
        lemma_pow2_pos(key_group as nat);
        assert(node_count(0, fan) <= index);
        assert(node_count(1, fan) == fan * (node_count(0, fan) + 1));
        assert(fan * 1 == fan) by (nonlinear_arith);
        assert(pow2(key_group as nat) <= usize::MAX);
    }
    let mut depth: usize = 0;
    let key_length: u32 = power_of_two(key_group) as u32;
    let mut multitude: u32 = key_length;
    let mut compare: u32 = multitude;
    while index >= compare as usize
        invariant
            fan == pow2(key_group as nat),
            fan >= 1,
            key_length == fan,
            node_count(depth as nat, fan) <= index,
            compare == node_count((depth + 1) as nat, fan),
            multitude == node_count((depth + 1) as nat, fan) - node_count(depth as nat, fan),
            depth <= node_count(depth as nat, fan),
            forall|d: nat| #[trigger]
                node_count(d, fan) <= index ==> node_count(d + 1, fan) <= u32::MAX,
        decreases index - node_count(depth as nat, fan),
    {
        proof {
            let a = node_count(depth as nat, fan);
            let b = node_count((depth + 1) as nat, fan);
            let c = node_count((depth + 2) as nat, fan);
            assert(b <= index);
            assert(node_count((depth + 1) as nat + 1, fan) <= u32::MAX);
            assert(b == fan * (a + 1));
            assert(c == fan * (b + 1));
            assert(c - b == (b - a) * fan) by (nonlinear_arith)
                requires
                    b == fan * (a + 1),
                    c == fan * (b + 1),
            ;
            lemma_node_count_grows(depth as nat, fan);
            lemma_node_count_grows((depth + 1) as nat, fan);
        }
        depth += 1;
        multitude *= key_length;
        compare += multitude;
    }
    depth
}

/// Value of the leading segment of `key`, of `seg` digits at most.
pub fn segment_index(key: &[u8], seg: usize) -> (id: usize)
    requires
        pow2(seg as nat) <= usize::MAX,
        binary_digits(key@, seg as nat),
    ensures
        id == binary_value(segment(key@, 0, seg as nat)),
        id < pow2(seg as nat),
{
    let mut id: usize = 0;
    let length: usize = if key.len() > seg {
        seg
    } else {
        key.len()
    };
    let ghost digits = segment(key@, 0, seg as nat);
    proof {
        lemma2_to64();
        lemma_pow2_pos(length as nat);
        if length < seg {
            lemma_pow2_strictly_increases(length as nat, seg as nat);
        }
        assert(digits.len() == length);
        assert(digits.subrange(0, 0) =~= Seq::<u8>::empty());
        assert(binary_value(digits.subrange(0, 0)) == 0);
        assert(0 * pow2(length as nat) == 0);
        lemma_usize_bits_bound(seg as nat);
    }
    let mut i: usize = 0;
    while i < length
        invariant
            i <= length,
            length <= seg,
            length <= key@.len(),
            digits.len() == length,
            forall|j: int| 0 <= j < length ==> #[trigger] digits[j] == key@[j],
            binary_digits(key@, seg as nat),
            pow2(length as nat) <= pow2(seg as nat) <= usize::MAX,
            seg < usize::BITS,
            id == binary_value(digits.subrange(0, i as int)) * pow2((length - i) as nat),
            id + pow2((length - i) as nat) <= pow2(length as nat),
        decreases length - i,
    {
        let d: u8 = key[i];
        assert(key@[i as int] == 48 || key@[i as int] == 49);
        let temp: usize = (d - 48) as usize;
        let shift: usize = length - i - 1;
        proof {
            let rest = pow2(shift as nat);
            lemma_pow2_unfold((length - i) as nat);
            lemma_pow2_pos(shift as nat);
            assert(pow2((length - i) as nat) == 2 * rest);
            assert(temp * rest <= rest) by (nonlinear_arith)
                requires
                    temp <= 1,
                    rest >= 0,
            ;
            vstd::bits::lemma_usize_shl_is_mul(temp, shift);
            let front = digits.subrange(0, i as int);
            let next = digits.subrange(0, i + 1);
            assert(next.drop_last() =~= front);
            assert(next.last() == d);
            assert(binary_value(next) == 2 * binary_value(front) + temp);
            assert((2 * binary_value(front) + temp) * rest == binary_value(front) * (2 * rest)
                + temp * rest) by (nonlinear_arith);
        }
        id += temp << shift;
        i += 1;
    }
    proof {
        assert(digits.subrange(0, length as int) =~= digits);
        lemma2_to64();
        assert(pow2(0) == 1);
        let v = binary_value(digits);
        assert(id == v * pow2(0));
        assert(v * 1 == v) by (nonlinear_arith);
        assert(id == v);
        assert(digits == segment(key@, 0, seg as nat));
    }
    id
}

/// A power of two that fits in `usize` has an exponent below its width.
pub proof fn lemma_usize_bits_bound(exp: nat)
    requires
        pow2(exp) <= usize::MAX,
    ensures
        exp < usize::BITS,
{
    if exp >= usize::BITS {
        lemma2_to64();
        if exp > usize::BITS {
            lemma_pow2_strictly_increases(usize::BITS as nat, exp);
        }
        assert(usize::BITS == 32 || usize::BITS == 64);
        assert(pow2(32) == 0x1_0000_0000);
        assert(pow2(64) == 0x1_0000_0000_0000_0000);
    }
}

/// One entry of the table.
#[derive(PartialEq, Eq, Debug)]
pub struct SubTrie<T: TrieData> {
    pub data: Option<T>,
    depth: usize,
    children_offset: Option<usize>,
}

impl<T: TrieData> SubTrie<T> {
    /// Level of the entry, counted from 0.
    pub closed spec fn depth_spec(&self) -> usize {
        self.depth
    }

    /// Table index of the first child, for an entry that has children.
    pub closed spec fn offset_spec(&self) -> Option<usize> {
        self.children_offset
    }
}

/// Shape of a table of a trie with `levels` levels of `2^seg` children each:
/// the entries of all levels but the last are there, each empty and with its
/// children's place; behind them stand the entries of the last level, each
/// absent or holding a value.
pub closed spec fn table_wf<T: TrieData>(table: Seq<Option<SubTrie<T>>>, levels: nat, seg: nat) -> bool {
    let inner = node_count((levels - 1) as nat, pow2(seg));
    &&& levels >= 1
    &&& inner <= table.len()
    &&& table.len() <= node_count(levels, pow2(seg)) <= usize::MAX
    &&& forall|i: int|
        0 <= i < inner ==> {
            &&& (#[trigger] table[i]) is Some
            &&& table[i]->Some_0.data is None
            &&& table[i]->Some_0.offset_spec() == Some(((i + 1) * pow2(seg)) as usize)
            &&& node_count(table[i]->Some_0.depth_spec() as nat, pow2(seg)) <= i < node_count(
                (table[i]->Some_0.depth_spec() + 1) as nat,
                pow2(seg),
            )
        }
    &&& forall|i: int|
        inner <= i < table.len() && (#[trigger] table[i]) is Some ==> {
            &&& table[i]->Some_0.data is Some
            &&& table[i]->Some_0.offset_spec() is None
            &&& table[i]->Some_0.depth_spec() == levels - 1
        }
}

/// The values that a table holds, by table index.
pub closed spec fn table_values<T: TrieData>(table: Seq<Option<SubTrie<T>>>) -> Map<nat, T> {
    Map::new(
        |i: nat| i < table.len() && table[i as int] is Some && table[i as int]->Some_0.data is Some,
        |i: nat| table[i as int]->Some_0.data->Some_0,
    )
}

/// A key for a trie of keys of `key_length` digits cut into segments of `seg`:
/// binary digits, enough of them to reach into the last segment.
pub open spec fn key_fits(key: Seq<u8>, key_length: nat, seg: nat) -> bool {
    &&& key.len() + seg >= key_length
    &&& binary_digits(key, key_length)
}

/// The segment at `depth` of a fitting key has a value below `2^seg`, and
/// the index at `depth` lies among the entries of that level.
pub proof fn lemma_index_at_range(key: Seq<u8>, seg: nat, depth: nat)
    requires
        seg > 0,
        binary_digits(key, (depth + 1) * seg),
    ensures
        binary_value(segment(key, (depth * seg) as int, seg)) < pow2(seg),
        node_count(depth, pow2(seg)) <= index_at(key, seg, depth) < node_count(depth + 1, pow2(seg)),
    decreases depth,
{
    let fan = pow2(seg);
    let digits = segment(key, (depth * seg) as int, seg);
    assert(depth * seg + seg == (depth + 1) * seg) by (nonlinear_arith);
    assert(depth * seg >= 0) by (nonlinear_arith);
    assert forall|i: int| 0 <= i < digits.len() implies (#[trigger] digits[i] == 48 || digits[i]
        == 49) by {
        assert(digits[i] == key[depth * seg + i]);
    }
    lemma_binary_value_bound(digits);
    lemma_pow2_pos(seg);
    if digits.len() < seg {
        lemma_pow2_strictly_increases(digits.len(), seg);
    }
    let v = binary_value(digits);
    if depth == 0 {
        assert(depth * seg == 0) by (nonlinear_arith)
            requires
                depth == 0,
        ;
        assert(index_at(key, seg, depth) == v);
        assert(node_count(1, fan) == fan * (node_count(0, fan) + 1));
        assert(fan * 1 == fan) by (nonlinear_arith);
    } else {
        assert(index_at(key, seg, depth) == (index_at(key, seg, (depth - 1) as nat) + 1) * fan
            + v);
        assert((depth - 1 + 1) * seg <= (depth + 1) * seg) by (nonlinear_arith)
            requires
                seg > 0,
        ;
        lemma_index_at_range(key, seg, (depth - 1) as nat);
        let a = node_count((depth - 1) as nat, fan);
        let b = node_count(depth, fan);
        let c = node_count(depth + 1, fan);
        let x = index_at(key, seg, (depth - 1) as nat);
        assert(b == fan * (a + 1));
        assert(c == fan * (b + 1));
        assert((x + 1) * fan >= fan * (a + 1)) by (nonlinear_arith)
            requires
                x >= a,
                fan >= 1,
        ;
        assert((x + 1) * fan + fan <= fan * (b + 1)) by (nonlinear_arith)
            requires
                x + 1 <= b,
                fan >= 1,
        ;
    }
}

/// The trie: its table, and the way keys are cut.
#[derive(Debug)]
pub struct ContiguousTrie<T: TrieData> {
    memory: Vec<Option<SubTrie<T>>>,
    key_length: usize,
    key_segment_size: usize,
}

impl<T: TrieData> ContiguousTrie<T> {
    /// Number of digits of a key.
    pub closed spec fn key_length_spec(&self) -> nat {
        self.key_length as nat
    }

    /// Number of digits of a segment.
    pub closed spec fn segment_spec(&self) -> nat {
        self.key_segment_size as nat
    }

    /// The table.
    pub closed spec fn table(&self) -> Seq<Option<SubTrie<T>>> {
        self.memory@
    }

    /// Number of levels.
    pub open spec fn levels(&self) -> nat {
        self.key_length_spec() / self.segment_spec()
    }

    /// The table has the shape of a trie for keys cut as this one cuts them.
    pub open spec fn wf(&self) -> bool {
        &&& self.segment_spec() > 0
        &&& self.key_length_spec() % self.segment_spec() == 0
        &&& table_wf(self.table(), self.levels(), self.segment_spec())
    }

    /// The values held, by the table index of their keys.
    pub open spec fn view(&self) -> Map<nat, T> {
        table_values(self.table())
    }

    /// `key` is a key for this trie.
    pub open spec fn valid_key(&self, key: Seq<u8>) -> bool {
        key_fits(key, self.key_length_spec(), self.segment_spec())
    }

    /// Table index of the entry of `key`.
    pub open spec fn leaf_index(&self, key: Seq<u8>) -> nat {
        index_at(key, self.segment_spec(), (self.levels() - 1) as nat)
    }

    /// The value held under `key`.
    pub open spec fn get_spec(&self, key: Seq<u8>) -> Option<T> {
        if self@.contains_key(self.leaf_index(key)) {
            Some(self@[self.leaf_index(key)])
        } else {
            None
        }
    }
}

/// What `ContiguousTrie::new` and its like ask of the two numbers: keys are
/// cut into whole segments, and the table of all levels can be indexed.
pub open spec fn shape_fits(key_length: nat, seg: nat) -> bool {
    &&& seg > 0
    &&& key_length >= seg
    &&& key_length % seg == 0
    &&& node_count(key_length / seg, pow2(seg)) <= usize::MAX
}

/// What `ContiguousTrie::new` asks besides: the entries of all levels but
/// the last can be counted in 32 bits.
pub open spec fn inner_fits(key_length: nat, seg: nat) -> bool {
    seg > 0 && key_length >= seg && node_count((key_length / seg - 1) as nat, pow2(seg))
        <= u32::MAX
}

/// The number of table entries of the first `levels` levels of a trie whose
/// nodes have `2^seg` children, if an address can hold it.
pub fn count_nodes(levels: usize, seg: usize) -> (r: Option<usize>)
    ensures
        r == if node_count(levels as nat, pow2(seg as nat)) <= usize::MAX {
            Some(node_count(levels as nat, pow2(seg as nat)) as usize)
        } else {
            None
        },
{
    let ghost fan = pow2(seg as nat);
    proof {
        lemma_pow2_pos(seg as nat);
        lemma2_to64();
    }
    if levels == 0 {
        return Some(0);
    }
    if seg >= 64 {
        proof {
            if seg > 64 {
                lemma_pow2_strictly_increases(64, seg as nat);
            }
            lemma_node_count_monotonic(0, levels as nat, fan);
        }
        return None;
    }
    if seg >= usize::BITS as usize {
        proof {
            if seg > 32 {
                lemma_pow2_strictly_increases(32, seg as nat);
            }
            lemma_node_count_monotonic(0, levels as nat, fan);
        }
        return None;
    }
    proof {
        vstd::bits::lemma_usize_pow2_no_overflow(seg as nat);
    }
    let width: usize = power_of_two(seg);
    let mut total: usize = 0;
    let mut i: usize = 0;
    while i < levels
        invariant
            i <= levels,
            width == fan,
            fan >= 1,
            fan == pow2(seg as nat),
            total == node_count(i as nat, fan),
        decreases levels - i,
    {
        proof {
            lemma_node_count_monotonic((i + 1) as nat, levels as nat, fan);
            assert(node_count((i + 1) as nat, fan) == fan * (total + 1));
            assert(fan * (total + 1) >= total + 1) by (nonlinear_arith)
                requires
                    fan >= 1,
            ;
        }
        let ghost wanted = node_count((i + 1) as nat, fan);
        match total.checked_add(1) {
            Some(t) => {
                proof {
                    assert(t * width == fan * (total + 1)) by (nonlinear_arith)
                        requires
                            t == total + 1,
                            width == fan,
                    ;
                }
                match t.checked_mul(width) {
                    Some(n) => {
                        total = n;
                    },
                    None => {
                        assert(wanted > usize::MAX);
                        return None;
                    },
                }
            },
            None => {
                assert(wanted > usize::MAX);
                return None;
            },
        }
        i += 1;
    }
    Some(total)
}

/// Tells whether a trie can be made for keys of `key_length` digits cut
/// into segments of `seg` digits.
pub fn shape_is_fit(key_length: usize, seg: usize) -> (r: bool)
    ensures
        r == shape_fits(key_length as nat, seg as nat),
{
    if seg == 0 || key_length < seg || key_length % seg != 0 {
        return false;
    }
    count_nodes(key_length / seg, seg).is_some()
}

/// Tells whether the entries of all levels but the last can be counted in
/// 32 bits.
pub fn inner_is_fit(key_length: usize, seg: usize) -> (r: bool)
    ensures
        r == inner_fits(key_length as nat, seg as nat),
{
    if seg == 0 || key_length < seg {
        return false;
    }
    proof {
        vstd::arithmetic::div_mod::lemma_div_non_zero(key_length as int, seg as int);
    }
    match count_nodes(key_length / seg - 1, seg) {
        Some(n) => n <= 0xffff_ffff,
        None => false,
    }
}

/// Tells whether `key` is a key for a trie of keys of `key_length` digits
/// cut into segments of `seg` digits.
pub fn key_is_fit(key: &[u8], key_length: usize, seg: usize) -> (r: bool)
    ensures
        r == key_fits(key@, key_length as nat, seg as nat),
{
    if key.len() < key_length && key_length - key.len() > seg {
        return false;
    }
    let mut i: usize = 0;
    while i < key.len() && i < key_length
        invariant
            i <= key@.len(),
            binary_digits(key@, i as nat),
        decreases key@.len() - i,
    {
        if key[i] != 48 && key[i] != 49 {
            proof {
                assert(!(key@[i as int] == 48 || key@[i as int] == 49));
            }
            return false;
        }
        i += 1;
    }
    true
}

impl<T: TrieData> ContiguousTrie<T> {
    /// A trie without values for keys of `key_length` binary digits, cut into
    /// segments of `key_segment_size` digits.
    pub fn new(key_length: usize, key_segment_size: usize) -> (t: Self)
        requires
            shape_fits(key_length as nat, key_segment_size as nat),
            node_count(
                (key_length as nat / key_segment_size as nat - 1) as nat,
                pow2(key_segment_size as nat),
            ) <= u32::MAX,
        ensures
            t.wf(),
            t.key_length_spec() == key_length,
            t.segment_spec() == key_segment_size,
            t@ == Map::<nat, T>::empty(),
    {
        let ghost fan = pow2(key_segment_size as nat);
        let ghost levels = key_length as nat / key_segment_size as nat;
        proof {
            lemma_pow2_pos(key_segment_size as nat);
            assert(levels >= 1) by {
                vstd::arithmetic::div_mod::lemma_div_non_zero(
                    key_length as int,
                    key_segment_size as int,
                );
            }
        }
        let rounds: usize = key_length / key_segment_size - 1;
        proof {
            lemma_node_count_monotonic(1, levels, fan);
            assert(node_count(1, fan) == fan * (node_count(0, fan) + 1));
            assert(fan * 1 == fan) by (nonlinear_arith);
        }
        let mut nodes_length: usize = 0;
        let array_length: usize = power_of_two(key_segment_size);
        let mut multitude: usize = array_length;
        let mut round: usize = 0;
        while round < rounds
            invariant
                round <= rounds,
                rounds + 1 == levels,
                fan >= 1,
                array_length == fan,
                node_count(levels, fan) <= usize::MAX,
                nodes_length == node_count(round as nat, fan),
                multitude == node_count((round + 1) as nat, fan) - node_count(round as nat, fan),
            decreases rounds - round,
        {
            proof {
                let a = node_count(round as nat, fan);
                let b = node_count((round + 1) as nat, fan);
                let c = node_count((round + 2) as nat, fan);
                assert(b == fan * (a + 1));
                assert(c == fan * (b + 1));
                assert(c - b == (b - a) * fan) by (nonlinear_arith)
                    requires
                        b == fan * (a + 1),
                        c == fan * (b + 1),
                ;
                lemma_node_count_monotonic((round + 2) as nat, levels, fan);
                lemma_node_count_grows((round + 1) as nat, fan);
                lemma_node_count_grows(round as nat, fan);
            }
            nodes_length += multitude;
            multitude *= array_length;
            round += 1;
        }
        let mut memory: Vec<Option<SubTrie<T>>> = Vec::with_capacity(nodes_length);
        let mut i: usize = 0;
        while i < nodes_length
            invariant
                i <= nodes_length,
                rounds + 1 == levels,
                fan >= 1,
                array_length == fan,
                fan == pow2(key_segment_size as nat),
                node_count(levels, fan) <= usize::MAX,
                nodes_length == node_count(rounds as nat, fan),
                nodes_length <= u32::MAX,
                memory@.len() == i,
                forall|j: int|
                    0 <= j < i ==> {
                        &&& (#[trigger] memory@[j]) is Some
                        &&& memory@[j]->Some_0.data is None
                        &&& memory@[j]->Some_0.children_offset == Some(((j + 1) * fan) as usize)
                        &&& node_count(memory@[j]->Some_0.depth as nat, fan) <= j < node_count(
                            (memory@[j]->Some_0.depth + 1) as nat,
                            fan,
                        )
                    },
            decreases nodes_length - i,
        {
            proof {
                assert forall|d: nat| #[trigger] node_count(d, fan) <= i implies node_count(
                    d + 1,
                    fan,
                ) <= u32::MAX by {
                    if d + 1 > rounds {
                        lemma_node_count_monotonic(rounds as nat, d, fan);
                    } else {
                        lemma_node_count_monotonic(d + 1, rounds as nat, fan);
                    }
                }
                assert((i + 1) * fan <= node_count(levels, fan)) by {
                    assert(node_count(levels, fan) == fan * (node_count(rounds as nat, fan) + 1));
                    assert((i + 1) * fan <= fan * (nodes_length + 1)) by (nonlinear_arith)
                        requires
                            i < nodes_length,
                            fan >= 1,
                    ;
                }
            }
            memory.push(
                Some(
                    SubTrie {
                        data: None,
                        depth: get_depth(key_segment_size, i),
                        children_offset: Some((i + 1) * array_length),
                    },
                ),
            );
            i += 1;
        }
        let t = ContiguousTrie { memory, key_length, key_segment_size };
        proof {
            lemma_node_count_grows(rounds as nat, fan);
            assert(t@ =~= Map::<nat, T>::empty());
        }
        t
    }

    /// Value of the leading segment of `key`.
    pub fn compute_index(&self, key: &[u8]) -> (id: usize)
        requires
            pow2(self.segment_spec()) <= usize::MAX,
            binary_digits(key@, self.segment_spec()),
        ensures
            id == binary_value(segment(key@, 0, self.segment_spec())),
            id < pow2(self.segment_spec()),
    {
        segment_index(key, self.key_segment_size)
    }

    /// Table index of the entry of `key`, and its level.
    pub fn key2index(&self, key: &[u8]) -> (r: (usize, usize))
        requires
            self.wf(),
            self.valid_key(key@),
        ensures
            r.0 == self.leaf_index(key@),
            r.1 == self.levels() - 1,
            node_count((self.levels() - 1) as nat, pow2(self.segment_spec())) <= r.0 < node_count(
                self.levels(),
                pow2(self.segment_spec()),
            ),
    {
        let ghost seg = self.key_segment_size as nat;
        let ghost fan = pow2(seg);
        let ghost levels = self.levels();
        proof {
            lemma_pow2_pos(seg);
            lemma_node_count_monotonic(1, levels, fan);
            assert(node_count(1, fan) == fan * (node_count(0, fan) + 1));
            assert(fan * 1 == fan) by (nonlinear_arith);
            lemma_levels(self.key_length as nat, seg);
            assert((0 + 1) * seg <= self.key_length) by (nonlinear_arith)
                requires
                    levels >= 1,
                    levels * seg == self.key_length,
            ;
            assert(binary_digits(key@, seg));
            lemma_index_at_range(key@, seg, 0);
            if 1 < levels {
                lemma_node_count_monotonic(1, (levels - 1) as nat, fan);
            }
        }
        let mut current_index: usize = self.compute_index(key);
        let mut key_start: usize = 0;
        let mut depth: usize = 0;
        while self.memory.len() > current_index && self.memory[current_index].is_some()
            invariant
                self.wf(),
                self.valid_key(key@),
                seg == self.key_segment_size,
                fan == pow2(seg),
                fan >= 1,
                fan <= usize::MAX,
                levels == self.levels(),
                levels * seg == self.key_length,
                depth < levels,
                key_start == depth * seg,
                current_index == index_at(key@, seg, depth as nat),
                node_count(depth as nat, fan) <= current_index < node_count((depth + 1) as nat, fan),
                depth + 1 < levels ==> current_index < self.memory@.len()
                    && self.memory@[current_index as int] is Some,
            ensures
                depth + 1 == levels,
                current_index == index_at(key@, seg, depth as nat),
                node_count(depth as nat, fan) <= current_index < node_count((depth + 1) as nat, fan),
            decreases levels - depth,
        {
            match &self.memory[current_index] {
                Some(a) => {
                    match a.children_offset {
                        Some(b) => {
                            proof {
                                // an entry with children lies above the last level
                                if depth + 1 >= levels {
                                    lemma_node_count_monotonic(
                                        (levels - 1) as nat,
                                        depth as nat,
                                        fan,
                                    );
                                }
                                assert(depth + 1 < levels);
                                assert(key_start + seg == (depth + 1) * seg) by (nonlinear_arith)
                                    requires
                                        key_start == depth * seg,
                                ;
                                assert((depth + 1) * seg + seg <= levels * seg) by (nonlinear_arith)
                                    requires
                                        depth + 2 <= levels,
                                ;
                                assert((depth + 1 + 1) * seg == (depth + 1) * seg + seg)
                                    by (nonlinear_arith);
                                lemma_index_at_range(key@, seg, (depth + 1) as nat);
                                lemma_node_count_monotonic((depth + 2) as nat, levels, fan);
                            }
                            key_start += self.key_segment_size;
                            depth += 1;
                            let rest = vstd::slice::slice_subrange(key, key_start, key.len());
                            proof {
                                assert(segment(rest@, 0, seg) =~= segment(
                                    key@,
                                    key_start as int,
                                    seg,
                                ));
                                assert forall|i: int| 0 <= i < rest@.len() && i < seg implies (
                                #[trigger] rest@[i] == 48 || rest@[i] == 49) by {
                                    assert(rest@[i] == key@[key_start + i]);
                                }
                                assert(b == (current_index + 1) * fan);
                            }
                            current_index = b + self.compute_index(rest);
                            proof {
                                if depth + 1 < levels {
                                    lemma_node_count_monotonic(
                                        (depth + 1) as nat,
                                        (levels - 1) as nat,
                                        fan,
                                    );
                                }
                            }
                        },
                        None => {
                            proof {
                                if depth + 1 < levels {
                                    lemma_node_count_monotonic(
                                        (depth + 1) as nat,
                                        (levels - 1) as nat,
                                        fan,
                                    );
                                }
                            }
                            break ;
                        },
                    }
                },
                None => {
                    break ;
                },
            }
        }
        proof {
            if depth + 1 < levels {
                lemma_node_count_monotonic((depth + 1) as nat, (levels - 1) as nat, fan);
            }
        }
        (current_index, depth)
    }
}

/// Whole segments: the number of levels times the segment size is the key
/// length.
pub proof fn lemma_levels(key_length: nat, seg: nat)
    requires
        seg > 0,
        key_length % seg == 0,
    ensures
        (key_length / seg) * seg == key_length,
{
    vstd::arithmetic::div_mod::lemma_fundamental_div_mod(key_length as int, seg as int);
    assert(seg * (key_length / seg) == (key_length / seg) * seg) by (nonlinear_arith);
}

impl<T: TrieData> ContiguousTrie<T> {
    /// Stores `value` under `key`, which holds no value yet.
    pub fn insert(&mut self, value: T, key: &[u8])
        requires
            old(self).wf(),
            old(self).valid_key(key@),
            old(self).get_spec(key@) is None,
        ensures
            final(self).wf(),
            final(self).key_length_spec() == old(self).key_length_spec(),
            final(self).segment_spec() == old(self).segment_spec(),
            final(self)@ == old(self)@.insert(old(self).leaf_index(key@), value),
    {
        let index_depth_pair = self.key2index(key);
        let ghost before = self.memory@;
        let ghost levels = self.levels();
        let ghost seg = self.segment_spec();
        if index_depth_pair.0 >= self.memory.len() {
            let push_amount: usize = index_depth_pair.0 - self.memory.len() + 1;
            let mut pushed: usize = 0;
            while pushed < push_amount
                invariant
                    pushed <= push_amount,
                    push_amount == index_depth_pair.0 - before.len() + 1,
                    self.memory@.len() == before.len() + pushed,
                    self.key_length == old(self).key_length,
                    self.key_segment_size == old(self).key_segment_size,
                    forall|j: int| 0 <= j < before.len() ==> self.memory@[j] == before[j],
                    forall|j: int|
                        before.len() <= j < self.memory@.len() ==> (#[trigger] self.memory@[j]) is None,
                decreases push_amount - pushed,
            {
                self.memory.push(None);
                pushed += 1;
            }
        }
        let ghost grown = self.memory@;
        assert(grown[index_depth_pair.0 as int] is None) by {
            if index_depth_pair.0 < before.len() {
                assert(grown[index_depth_pair.0 as int] == before[index_depth_pair.0 as int]);
                if before[index_depth_pair.0 as int] is Some {
                    assert(old(self)@.contains_key(index_depth_pair.0 as nat));
                }
            }
        }
        self.memory.set(
            index_depth_pair.0,
            Some(SubTrie { data: Some(value), depth: index_depth_pair.1, children_offset: None }),
        );
        proof {
            let after = self.memory@;
            let inner = node_count((levels - 1) as nat, pow2(seg));
            assert forall|i: int| 0 <= i < inner implies {
                &&& (#[trigger] after[i]) is Some
                &&& after[i]->Some_0.data is None
                &&& after[i]->Some_0.offset_spec() == Some(((i + 1) * pow2(seg)) as usize)
                &&& node_count(after[i]->Some_0.depth_spec() as nat, pow2(seg)) <= i < node_count(
                    (after[i]->Some_0.depth_spec() + 1) as nat,
                    pow2(seg),
                )
            } by {
                assert(after[i] == before[i]);
            }
            assert forall|i: int| inner <= i < after.len() && (#[trigger] after[i]) is Some implies {
                &&& after[i]->Some_0.data is Some
                &&& after[i]->Some_0.offset_spec() is None
                &&& after[i]->Some_0.depth_spec() == levels - 1
            } by {
                if i != index_depth_pair.0 {
                    if i < before.len() {
                        assert(after[i] == before[i]);
                    } else {
                        assert(grown[i] is None);
                    }
                }
            }
            assert(self@ =~= old(self)@.insert(old(self).leaf_index(key@), value)) by {
                assert forall|i: nat| #[trigger]
                    self@.contains_key(i) <==> old(self)@.insert(
                        index_depth_pair.0 as nat,
                        value,
                    ).contains_key(i) by {
                    if i != index_depth_pair.0 && i < after.len() {
                        if i < before.len() {
                            assert(after[i as int] == before[i as int]);
                        } else {
                            assert(grown[i as int] is None);
                        }
                    }
                }
                assert forall|i: nat| #[trigger] self@.contains_key(i) implies self@[i] == old(
                    self,
                )@.insert(index_depth_pair.0 as nat, value)[i] by {
                    if i != index_depth_pair.0 {
                        assert(after[i as int] == before[i as int]);
                    }
                }
            }
        }
    }

    /// Whether a value is held under `key`.
    pub fn contain(&self, key: &[u8]) -> (r: bool)
        requires
            self.wf(),
            self.valid_key(key@),
        ensures
            r == self.get_spec(key@).is_some(),
    {
        let index_depth_pair = self.key2index(key);
        if self.memory.len() <= index_depth_pair.0 {
            return false;
        }
        match &self.memory[index_depth_pair.0] {
            Some(_) => true,
            None => false,
        }
    }

    /// The value held under `key`.
    pub fn get(&self, key: &[u8]) -> (r: Option<T>)
        requires
            self.wf(),
            self.valid_key(key@),
        ensures
            r == self.get_spec(key@),
    {
        let index_depth_pair = self.key2index(key);
        if self.memory.len() <= index_depth_pair.0 {
            return None;
        }
        match &self.memory[index_depth_pair.0] {
            Some(a) => a.data,
            None => None,
        }
    }

    /// As `insert`, for a key written as text: its first two bytes, the
    /// prefix of a binary numeral, are skipped.
    pub fn insert_(&mut self, value: T, key: String)
        requires
            old(self).wf(),
            key@.len() >= 2,
            vstd::utf8::is_ascii_chars(key@),
            old(self).valid_key(text_digits(key@)),
            old(self).get_spec(text_digits(key@)) is None,
        ensures
            final(self).wf(),
            final(self).key_length_spec() == old(self).key_length_spec(),
            final(self).segment_spec() == old(self).segment_spec(),
            final(self)@ == old(self)@.insert(old(self).leaf_index(text_digits(key@)), value),
    {
        let text = key.as_str();
        proof {
            vstd::string::is_ascii_spec_bytes(text);
        }
        let arr = text.as_bytes();
        let digits = vstd::slice::slice_subrange(arr, 2, arr.len());
        assert(digits@ =~= text_digits(key@));
        self.insert(value, digits);
    }
}

/// The bytes of an ASCII text behind its first two characters.
pub open spec fn text_digits(text: Seq<char>) -> Seq<u8> {
    Seq::new((text.len() - 2) as nat, |i: int| text[i + 2] as u8)
}

/// Whether `text` is made of ASCII characters and has the two characters
/// that `insert_` skips.
pub fn text_digits_ok(text: &String) -> (r: bool)
    ensures
        r == (text@.len() >= 2 && vstd::utf8::is_ascii_chars(text@)),
{
    let s = text.as_str();
    if !s.is_ascii() {
        return false;
    }
    proof {
        vstd::string::is_ascii_spec_bytes(s);
        assert(vstd::string::is_ascii(s));
        assert(s.spec_bytes() =~= Seq::new(s@.len(), |i| s@.index(i) as u8));
    }
    s.as_bytes().len() >= 2
}

/// Two strings of binary digits of one length with one value are the same.
pub proof fn lemma_binary_value_injective(a: Seq<u8>, b: Seq<u8>)
    requires
        a.len() == b.len(),
        binary_digits(a, a.len()),
        binary_digits(b, b.len()),
        binary_value(a) == binary_value(b),
    ensures
        a == b,
    decreases a.len(),
{
    if a.len() > 0 {
        let fa = a.drop_last();
        let fb = b.drop_last();
        assert(a.last() == a[a.len() - 1]);
        assert(b.last() == b[b.len() - 1]);
        assert forall|i: int| 0 <= i < fa.len() implies (#[trigger] fa[i] == 48 || fa[i] == 49) by {
            assert(fa[i] == a[i]);
        }
        assert forall|i: int| 0 <= i < fb.len() implies (#[trigger] fb[i] == 48 || fb[i] == 49) by {
            assert(fb[i] == b[i]);
        }
        lemma_binary_value_injective(fa, fb);
        assert(a =~= fa.push(a.last()));
        assert(b =~= fb.push(b.last()));
    } else {
        assert(a =~= b);
    }
}

/// Keys of whole segments that lead to one table entry at `depth` are the
/// same in the segments up to `depth`.
pub proof fn lemma_index_at_injective(k1: Seq<u8>, k2: Seq<u8>, seg: nat, depth: nat, j: nat)
    requires
        seg > 0,
        k1.len() >= (depth + 1) * seg,
        k2.len() >= (depth + 1) * seg,
        binary_digits(k1, (depth + 1) * seg),
        binary_digits(k2, (depth + 1) * seg),
        index_at(k1, seg, depth) == index_at(k2, seg, depth),
        j <= depth,
    ensures
        segment(k1, (j * seg) as int, seg) == segment(k2, (j * seg) as int, seg),
    decreases depth,
{
    let fan = pow2(seg);
    let s1 = segment(k1, (depth * seg) as int, seg);
    let s2 = segment(k2, (depth * seg) as int, seg);
    assert(depth * seg + seg == (depth + 1) * seg) by (nonlinear_arith);
    assert(depth * seg >= 0) by (nonlinear_arith);
    assert(s1.len() == seg && s2.len() == seg);
    assert forall|i: int| 0 <= i < s1.len() implies (#[trigger] s1[i] == 48 || s1[i] == 49) by {
        assert(s1[i] == k1[depth * seg + i]);
    }
    assert forall|i: int| 0 <= i < s2.len() implies (#[trigger] s2[i] == 48 || s2[i] == 49) by {
        assert(s2[i] == k2[depth * seg + i]);
    }
    lemma_binary_value_bound(s1);
    lemma_binary_value_bound(s2);
    let v1 = binary_value(s1);
    let v2 = binary_value(s2);
    if depth == 0 {
        assert(depth * seg == 0) by (nonlinear_arith)
            requires
                depth == 0,
        ;
        assert(j * seg == 0) by (nonlinear_arith)
            requires
                j == 0,
        ;
        lemma_binary_value_injective(s1, s2);
    } else {
        let x1 = index_at(k1, seg, (depth - 1) as nat);
        let x2 = index_at(k2, seg, (depth - 1) as nat);
        assert((x1 + 1) * fan + v1 == (x2 + 1) * fan + v2);
        assert(x1 == x2 && v1 == v2) by (nonlinear_arith)
            requires
                (x1 + 1) * fan + v1 == (x2 + 1) * fan + v2,
                0 <= v1 < fan,
                0 <= v2 < fan,
        ;
        lemma_binary_value_injective(s1, s2);
        if j < depth {
            assert((depth - 1 + 1) * seg <= (depth + 1) * seg) by (nonlinear_arith)
                requires
                    seg > 0,
            ;
            lemma_index_at_injective(k1, k2, seg, (depth - 1) as nat, j);
        }
    }
}

/// Keys of `levels` whole segments that lead to one table entry are the
/// same key: each key has a table entry of its own.
pub proof fn law_keys_have_their_own_entry(k1: Seq<u8>, k2: Seq<u8>, seg: nat, levels: nat)
    requires
        seg > 0,
        levels >= 1,
        k1.len() == levels * seg,
        k2.len() == levels * seg,
        binary_digits(k1, k1.len()),
        binary_digits(k2, k2.len()),
        index_at(k1, seg, (levels - 1) as nat) == index_at(k2, seg, (levels - 1) as nat),
    ensures
        k1 == k2,
{
    assert((levels - 1 + 1) * seg == levels * seg);
    assert forall|i: int| 0 <= i < k1.len() implies k1[i] == k2[i] by {
        let j = (i / seg as int) as nat;
        vstd::arithmetic::div_mod::lemma_fundamental_div_mod(i, seg as int);
        vstd::arithmetic::div_mod::lemma_mod_bound(i, seg as int);
        assert(j < levels) by {
            vstd::arithmetic::div_mod::lemma_div_is_ordered(i, (levels * seg - 1) as int, seg as int);
            assert((levels * seg - 1) / (seg as int) < levels) by (nonlinear_arith)
                requires
                    seg > 0,
                    levels >= 1,
            ;
        }
        lemma_index_at_injective(k1, k2, seg, (levels - 1) as nat, j);
        let a = segment(k1, (j * seg) as int, seg);
        let b = segment(k2, (j * seg) as int, seg);
        assert(j * seg + seg <= levels * seg) by (nonlinear_arith)
            requires
                j + 1 <= levels,
        ;
        assert(j * seg == seg * j) by (nonlinear_arith);
        let off = i % (seg as int);
        assert(i == j * seg + off);
        assert(a[off] == k1[j * seg + off]);
        assert(b[off] == k2[j * seg + off]);
    }
    assert(k1 =~= k2);
}

impl<T: TrieData> ContiguousTrie<T> {
    /// An insertion changes what is held under no other key of whole
    /// segments.
    pub proof fn law_insert_keeps_others(
        before: &Self,
        after: &Self,
        value: T,
        key: Seq<u8>,
        other: Seq<u8>,
    )
        requires
            before.wf(),
            after.key_length_spec() == before.key_length_spec(),
            after.segment_spec() == before.segment_spec(),
            after@ == before@.insert(before.leaf_index(key), value),
            key.len() == before.key_length_spec(),
            other.len() == before.key_length_spec(),
            binary_digits(key, key.len()),
            binary_digits(other, other.len()),
            key != other,
        ensures
            after.get_spec(key) == Some(value),
            after.get_spec(other) == before.get_spec(other),
    {
        let seg = before.segment_spec();
        let levels = before.levels();
        lemma_levels(before.key_length_spec(), seg);
        before.lemma_wf_levels();
        if index_at(key, seg, (levels - 1) as nat) == index_at(other, seg, (levels - 1) as nat) {
            law_keys_have_their_own_entry(key, other, seg, levels);
        }
    }

    /// A trie has at least one level.
    proof fn lemma_wf_levels(&self)
        requires
            self.wf(),
        ensures
            self.levels() >= 1,
    {
    }
}

} // verus!
