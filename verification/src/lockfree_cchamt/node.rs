//! The nodes of the arena, the slots that hashes select in array nodes, and
//! the hashes that narrow array nodes can tell apart.
use vstd::prelude::*;

verus! {

/// The address that refers to no node.
pub const NULL: usize = usize::MAX;

/// Number of slots of a narrow array node.
pub const NARROW: usize = 4;

/// Number of slots of a wide array node.
pub const WIDE: usize = 16;

/// The nodes of the arena.
pub enum Node<K, V> {
    /// A key with its value and hash; `txn` witnesses what became of the node.
    SNode { hash: u64, key: K, val: V, txn: usize },
    /// An array of 4 or 16 slots.
    ANode(Vec<usize>),
    /// Initial value of the `txn` of a data node.
    NoTxn,
    /// In a `txn`: the data node is frozen.
    FSNode,
    /// In a slot: the slot was empty when it was frozen.
    FVNode,
    /// In a slot: the array node `frozen` is frozen.
    FNode { frozen: usize },
    /// In a slot: the narrow array node that stood here is being replaced by
    /// a wide one.
    ENode { parent: usize, parentpos: u8, narrow: usize, hash: u64, level: u8, wide: usize },
}

/// Whether the address `p` refers to no node.
pub fn is_node_null(p: usize) -> (r: bool)
    ensures
        r == (p == NULL),
{
    p == NULL
}

/// An array of `len` empty slots.
pub fn makeanode(len: usize) -> (a: Vec<usize>)
    ensures
        a@.len() == len,
        forall|i: int| 0 <= i < len ==> a@[i] == NULL,
{
    let mut a: Vec<usize> = Vec::with_capacity(len);
    let mut i: usize = 0;
    while i < len
        invariant
            i <= len,
            a@.len() == i,
            forall|j: int| 0 <= j < i ==> a@[j] == NULL,
        decreases len - i,
    {
        a.push(NULL);
        i += 1;
    }
    a
}

/// Slot of an array node of `width` slots that the hash `h` selects at the
/// level `lev`.
pub open spec fn slot_index(h: u64, lev: int, width: int) -> int {
    if width == NARROW {
        ((h >> (lev as u64)) & 3) as int
    } else {
        ((h >> (lev as u64)) & 15) as int
    }
}

/// The slot that `h` selects at the level `lev` in an array node of `width`
/// slots.
pub fn slot_of(h: u64, lev: u8, width: usize) -> (pos: usize)
    requires
        lev < 64,
        width == NARROW || width == WIDE,
    ensures
        pos == slot_index(h, lev as int, width as int),
        pos < width,
{
    let shifted: u64 = h >> lev;
    if width == NARROW {
        assert(shifted & 3 < 4) by (bit_vector);
        (shifted & 3) as usize
    } else {
        assert(shifted & 15 < 16) by (bit_vector);
        (shifted & 15) as usize
    }
}

/// What is known of a node beyond what it holds: the way from the root to
/// it, and, for an array node, how far it has been frozen.
pub struct Meta {
    /// For each array node above, whether it is wide and the slot taken.
    pub path: Seq<(bool, int)>,
    /// The array node has been taken out of the live trie.
    pub retired: bool,
    /// The slots before this one have reached their frozen form.
    pub upto: nat,
}

impl<K, V> Node<K, V> {
    /// The slots of an array node.
    pub open spec fn slots(self) -> Seq<usize> {
        match self {
            Node::ANode(a) => a@,
            _ => Seq::empty(),
        }
    }

    /// The `txn` of a data node.
    pub open spec fn txn(self) -> usize {
        match self {
            Node::SNode { txn, .. } => txn,
            _ => NULL,
        }
    }

    /// Where a descent goes on from this node, for a node that stands for
    /// an array node: the array node itself, the frozen one, the narrow one.
    pub open spec fn inner(self) -> usize {
        match self {
            Node::FNode { frozen } => frozen,
            Node::ENode { narrow, .. } => narrow,
            _ => NULL,
        }
    }

    /// The same node but for the words that compare-and-swap may change.
    pub open spec fn kept_as(self, later: Self) -> bool {
        match self {
            Node::SNode { hash, key, val, .. } => later matches Node::SNode {
                hash: h2,
                key: k2,
                val: v2,
                ..
            } && h2 == hash && k2 == key && v2 == val,
            Node::ANode(a) => later is ANode && later.slots().len() == a@.len(),
            Node::NoTxn => later is NoTxn,
            Node::FSNode => later is FSNode,
            Node::FVNode => later is FVNode,
            Node::FNode { frozen } => later == self,
            Node::ENode { parent, parentpos, narrow, hash, level, .. } => later matches Node::ENode {
                parent: par2,
                parentpos: pp2,
                narrow: n2,
                hash: h2,
                level: l2,
                ..
            } && par2 == parent && pp2 == parentpos && n2 == narrow && h2 == hash && l2 == level,
        }
    }
}

/// Number of slots of an array node on a path.
pub open spec fn step_width(wide: bool) -> int {
    if wide {
        WIDE as int
    } else {
        NARROW as int
    }
}

/// The hash `h` selects, level by level, the slots of `path`.
pub open spec fn on_path(h: u64, path: Seq<(bool, int)>) -> bool {
    forall|j: int|
        0 <= j < path.len() ==> slot_index(h, 4 * j, step_width((#[trigger] path[j]).0))
            == path[j].1
}

/// What a descent finds in a slot: nothing, a key with its value, or an
/// array node to go on in.
pub enum Target<I, V> {
    Miss,
    Leaf(I, V),
    Down(usize),
}

/// The variant of a node.
#[derive(PartialEq, Eq, Structural, Clone, Copy, Debug)]
pub enum Kind {
    Data,
    Array,
    NoTxn,
    DataFrozen,
    EmptyFrozen,
    ArrayFrozen,
    Expansion,
}

impl<K, V> Node<K, V> {
    /// The variant of the node.
    pub open spec fn kind_spec(self) -> Kind {
        match self {
            Node::SNode { .. } => Kind::Data,
            Node::ANode(_) => Kind::Array,
            Node::NoTxn => Kind::NoTxn,
            Node::FSNode => Kind::DataFrozen,
            Node::FVNode => Kind::EmptyFrozen,
            Node::FNode { .. } => Kind::ArrayFrozen,
            Node::ENode { .. } => Kind::Expansion,
        }
    }

    /// The variant of the node.
    pub fn kind(&self) -> (k: Kind)
        ensures
            k == self.kind_spec(),
    {
        match self {
            Node::SNode { .. } => Kind::Data,
            Node::ANode(_) => Kind::Array,
            Node::NoTxn => Kind::NoTxn,
            Node::FSNode => Kind::DataFrozen,
            Node::FVNode => Kind::EmptyFrozen,
            Node::FNode { .. } => Kind::ArrayFrozen,
            Node::ENode { .. } => Kind::Expansion,
        }
    }
}

/// Whether two nodes are of the same variant.
pub fn node_type_eq<K, V>(n: &Node<K, V>, m: &Node<K, V>) -> (r: bool)
    ensures
        r == (n.kind_spec() == m.kind_spec()),
{
    n.kind() == m.kind()
}

impl Meta {
    /// The record of a node that is no array node.
    pub open spec fn blank() -> Meta {
        Meta { path: Seq::empty(), retired: false, upto: 0 }
    }
}

/// The two hashes select different slots of a narrow array node at depth `j`.
pub open spec fn low_bits_differ(h1: u64, h2: u64, j: int) -> bool {
    slot_index(h1, 4 * j, NARROW as int) != slot_index(h2, 4 * j, NARROW as int)
}

/// Narrow array nodes tell the two hashes apart at some depth from `d` on.
pub open spec fn separable_from(h1: u64, h2: u64, d: int) -> bool {
    exists|j: int| d <= j < 16 && #[trigger] low_bits_differ(h1, h2, j)
}

/// Narrow array nodes tell the two hashes apart at some depth.
pub open spec fn separable(h1: u64, h2: u64) -> bool {
    separable_from(h1, h2, 0)
}

/// The two hashes select different slots of a wide array node at depth `j`.
pub open spec fn groups_differ(h1: u64, h2: u64, j: int) -> bool {
    slot_index(h1, 4 * j, WIDE as int) != slot_index(h2, 4 * j, WIDE as int)
}

/// The two hashes select the same slot of a wide array node at every
/// depth from `d` up to `j`, and different ones at depth `j`.
pub open spec fn part_at(h1: u64, h2: u64, d: int, j: int) -> bool {
    &&& d <= j < 16
    &&& groups_differ(h1, h2, j)
    &&& forall|i: int| d <= i < j ==> !#[trigger] groups_differ(h1, h2, i)
}

/// Where two hashes part does not depend on which is named first.
pub proof fn lemma_part_sym(h1: u64, h2: u64, d: int, j: int)
    requires
        part_at(h1, h2, d, j),
    ensures
        part_at(h2, h1, d, j),
{
    assert forall|i: int| d <= i < j implies !#[trigger] groups_differ(h2, h1, i) by {
        assert(!groups_differ(h1, h2, i));
    }
}

/// The two hashes select different slots of the root, so that keys with
/// these hashes never meet below it.
pub open spec fn parted_at_root(h1: u64, h2: u64) -> bool {
    slot_index(h1, 0, WIDE as int) != slot_index(h2, 0, WIDE as int)
}

/// Keys with these two hashes can be held together in any trie: they part
/// at the root, or narrow array nodes can tell them apart.
pub open spec fn compatible(h1: u64, h2: u64) -> bool {
    separable(h1, h2) || parted_at_root(h1, h2)
}

/// Tells whether keys with these two hashes can be held together in any
/// trie.
pub fn can_share(h1: u64, h2: u64) -> (r: bool)
    ensures
        r == compatible(h1, h2),
{
    tell_apart(h1, h2) || slot_of(h1, 0, WIDE) != slot_of(h2, 0, WIDE)
}

impl<K, V> Node<K, V> {
    /// The hash kept in a data or expansion node.
    pub open spec fn hash_spec(self) -> u64 {
        match self {
            Node::SNode { hash, .. } => hash,
            Node::ENode { hash, .. } => hash,
            _ => 0,
        }
    }

    /// The hash kept in a data node.
    pub fn get_hash(&self) -> (h: u64)
        ensures
            h == self.hash_spec(),
    {
        match self {
            Node::SNode { hash, .. } => *hash,
            Node::ENode { hash, .. } => *hash,
            _ => 0,
        }
    }
}

/// The bits by which narrow array nodes tell hashes apart: the two low
/// bits of each group of four.
pub const LOW_BITS: u64 = 0x3333_3333_3333_3333;

/// Two hashes differ in the bits by which narrow array nodes tell hashes
/// apart exactly if they can be told apart at some depth.
pub proof fn lemma_low_bits(h1: u64, h2: u64)
    ensures
        separable(h1, h2) <==> (h1 ^ h2) & LOW_BITS != 0,
{
    assert(((h1 ^ h2) & 0x3333_3333_3333_3333 != 0) <==> (((h1 >> 0) & 3) != ((h2 >> 0) & 3) || ((h1
        >> 4) & 3) != ((h2 >> 4) & 3) || ((h1 >> 8) & 3) != ((h2 >> 8) & 3) || ((h1 >> 12) & 3) != ((
    h2 >> 12) & 3) || ((h1 >> 16) & 3) != ((h2 >> 16) & 3) || ((h1 >> 20) & 3) != ((h2 >> 20) & 3)
        || ((h1 >> 24) & 3) != ((h2 >> 24) & 3) || ((h1 >> 28) & 3) != ((h2 >> 28) & 3) || ((h1
        >> 32) & 3) != ((h2 >> 32) & 3) || ((h1 >> 36) & 3) != ((h2 >> 36) & 3) || ((h1 >> 40) & 3)
        != ((h2 >> 40) & 3) || ((h1 >> 44) & 3) != ((h2 >> 44) & 3) || ((h1 >> 48) & 3) != ((h2
        >> 48) & 3) || ((h1 >> 52) & 3) != ((h2 >> 52) & 3) || ((h1 >> 56) & 3) != ((h2 >> 56) & 3)
        || ((h1 >> 60) & 3) != ((h2 >> 60) & 3))) by (bit_vector);
    assert(low_bits_differ(h1, h2, 0) <==> ((h1 >> 0) & 3) != ((h2 >> 0) & 3));
    assert(low_bits_differ(h1, h2, 1) <==> ((h1 >> 4) & 3) != ((h2 >> 4) & 3));
    assert(low_bits_differ(h1, h2, 2) <==> ((h1 >> 8) & 3) != ((h2 >> 8) & 3));
    assert(low_bits_differ(h1, h2, 3) <==> ((h1 >> 12) & 3) != ((h2 >> 12) & 3));
    assert(low_bits_differ(h1, h2, 4) <==> ((h1 >> 16) & 3) != ((h2 >> 16) & 3));
    assert(low_bits_differ(h1, h2, 5) <==> ((h1 >> 20) & 3) != ((h2 >> 20) & 3));
    assert(low_bits_differ(h1, h2, 6) <==> ((h1 >> 24) & 3) != ((h2 >> 24) & 3));
    assert(low_bits_differ(h1, h2, 7) <==> ((h1 >> 28) & 3) != ((h2 >> 28) & 3));
    assert(low_bits_differ(h1, h2, 8) <==> ((h1 >> 32) & 3) != ((h2 >> 32) & 3));
    assert(low_bits_differ(h1, h2, 9) <==> ((h1 >> 36) & 3) != ((h2 >> 36) & 3));
    assert(low_bits_differ(h1, h2, 10) <==> ((h1 >> 40) & 3) != ((h2 >> 40) & 3));
    assert(low_bits_differ(h1, h2, 11) <==> ((h1 >> 44) & 3) != ((h2 >> 44) & 3));
    assert(low_bits_differ(h1, h2, 12) <==> ((h1 >> 48) & 3) != ((h2 >> 48) & 3));
    assert(low_bits_differ(h1, h2, 13) <==> ((h1 >> 52) & 3) != ((h2 >> 52) & 3));
    assert(low_bits_differ(h1, h2, 14) <==> ((h1 >> 56) & 3) != ((h2 >> 56) & 3));
    assert(low_bits_differ(h1, h2, 15) <==> ((h1 >> 60) & 3) != ((h2 >> 60) & 3));
    if separable(h1, h2) {
        let j = choose|j: int| 0 <= j < 16 && #[trigger] low_bits_differ(h1, h2, j);
        assert(j == 0 || j == 1 || j == 2 || j == 3 || j == 4 || j == 5 || j == 6 || j == 7 || j == 8
            || j == 9 || j == 10 || j == 11 || j == 12 || j == 13 || j == 14 || j == 15);
    }
}

/// Whether narrow array nodes can tell the two hashes apart at some depth.
pub fn tell_apart(h1: u64, h2: u64) -> (r: bool)
    ensures
        r == separable(h1, h2),
{
    proof {
        lemma_low_bits(h1, h2);
    }
    (h1 ^ h2) & LOW_BITS != 0
}

} // verus!
