//! A trie over keys written as ASCII binary digits, four digits per level.
//!
//! Every node has sixteen children, one for each value of a group of four
//! digits; a key names the node reached by following its groups from the root.
use vstd::prelude::*;

verus! {

/// A value: it can be copied and compared.
pub trait TrieData: Clone + Copy + Eq + PartialEq {

}

/// Every type that can be copied and compared is a value.
impl<T> TrieData for T where T: Clone + Copy + Eq + PartialEq {

}

/// Number of children of every node.
pub const KEY_LEN: usize = 16;

/// Number of key digits consumed per level.
pub const KEY_GROUP: usize = 4;

/// Value returned by `insert` for a key whose last group is incomplete.
pub const PARTIAL_KEY: u32 = 9999;

/// A trie node.
#[derive(PartialEq, Eq, Debug)]
pub struct Trie<T: TrieData> {
    pub data: Option<T>,
    depth: u32,
    children: Vec<Option<Box<Trie<T>>>>,
}

/// How far a key leads into a trie.
#[derive(PartialEq, Eq, Structural, Clone, Copy, Debug)]
pub enum IndexStatus {
    FullMatch,
    StartingMatch,
    NoMatch,
}

/// Weighted sum of the first `n` digits of `key`: digit `i` counts `2^i`.
pub open spec fn digit_sum(key: Seq<u8>, n: nat) -> int
    decreases n,
{
    if n == 0 {
        0
    } else {
        digit_sum(key, (n - 1) as nat) + (key[n - 1] - 48) * vstd::arithmetic::power2::pow2(
            (n - 1) as nat,
        )
    }
}

/// Number of digits in the leading group of `key`.
pub open spec fn group_len(key: Seq<u8>) -> nat {
    if key.len() > KEY_GROUP {
        KEY_GROUP as nat
    } else {
        key.len()
    }
}

/// Child index named by the leading group of `key`.
pub open spec fn index_of(key: Seq<u8>) -> int {
    digit_sum(key, group_len(key))
}

/// Every group of `key` is made of digits not below `0` and names a child.
pub open spec fn valid_key(key: Seq<u8>) -> bool
    decreases key.len(),
{
    &&& forall|i: int| 0 <= i < group_len(key) ==> #[trigger] key[i] >= 48
    &&& index_of(key) < KEY_LEN
    &&& key.len() >= KEY_GROUP ==> valid_key(key.skip(KEY_GROUP as int))
}

/// Child indices named by the complete groups of `key`, in order.
pub open spec fn path_of(key: Seq<u8>) -> Seq<int>
    decreases key.len(),
{
    if key.len() >= KEY_GROUP {
        seq![index_of(key)] + path_of(key.skip(KEY_GROUP as int))
    } else {
        Seq::empty()
    }
}

/// Child indices that `insert` walks for `key`: those of the complete groups
/// and, when digits are left over, that of the incomplete last group.
pub open spec fn walk_of(key: Seq<u8>) -> Seq<int>
    decreases key.len(),
{
    if key.len() >= KEY_GROUP {
        seq![index_of(key)] + walk_of(key.skip(KEY_GROUP as int))
    } else if key.len() > 0 {
        seq![index_of(key)]
    } else {
        Seq::empty()
    }
}

/// What `insert` returns for a non-empty key.
pub open spec fn insert_result(key: Seq<u8>) -> u32 {
    if key.len() % 4 == 0 {
        1
    } else {
        PARTIAL_KEY
    }
}

/// The first powers of two.
proof fn lemma_pow2_small()
    ensures
        vstd::arithmetic::power2::pow2(0) == 1,
        vstd::arithmetic::power2::pow2(1) == 2,
        vstd::arithmetic::power2::pow2(2) == 4,
        vstd::arithmetic::power2::pow2(3) == 8,
{
    vstd::arithmetic::power2::lemma2_to64();
}

/// The child index named by the leading group of `key`.
pub fn compute_index(key: &[u8]) -> (id: usize)
    requires
        forall|i: int| 0 <= i < group_len(key@) ==> #[trigger] key@[i] >= 48,
    ensures
        id == index_of(key@),
{
    let mut id: usize = 0;
    let length: usize = if key.len() > KEY_GROUP {
        KEY_GROUP
    } else {
        key.len()
    };
    let mut i: usize = 0;
    while i < length
        invariant
            i <= length,
            length == group_len(key@),
            length <= 4,
            forall|j: int| 0 <= j < group_len(key@) ==> #[trigger] key@[j] >= 48,
            id == digit_sum(key@, i as nat),
            id <= 207 * vstd::arithmetic::power2::pow2(i as nat),
        decreases length - i,
    {
        let d: u8 = key[i];
        assert(key@[i as int] >= 48);
        let temp: usize = (d - 48) as usize;
        proof {
            lemma_pow2_small();
            vstd::arithmetic::power2::lemma2_to64();
            assert(vstd::arithmetic::power2::pow2(4) == 16);
            let w: usize = i;
            assert(temp << w == temp * vstd::arithmetic::power2::pow2(w as nat)) by {
                assert(temp <= 207);
                assert(w < 4);
                assert(temp << 0usize == temp * 1) by (bit_vector);
                assert(temp <= 207 ==> temp << 1usize == temp * 2) by (bit_vector);
                assert(temp <= 207 ==> temp << 2usize == temp * 4) by (bit_vector);
                assert(temp <= 207 ==> temp << 3usize == temp * 8) by (bit_vector);
            }
            assert(vstd::arithmetic::power2::pow2((i + 1) as nat) == 2
                * vstd::arithmetic::power2::pow2(i as nat)) by {
                vstd::arithmetic::power2::lemma_pow2_unfold((i + 1) as nat);
            }
        }
        id += temp << i;
        i += 1;
    }
    id
}


impl<T: TrieData> Trie<T> {
    /// Every node below has sixteen children.
    pub closed spec fn wf(&self) -> bool
        decreases self,
    {
        &&& self.children@.len() == KEY_LEN
        &&& forall|i: int|
            0 <= i < self.children@.len() && (#[trigger] self.children@[i]) is Some
                ==> self.children@[i]->Some_0.wf()
    }

    /// The sum kept in this node: what `insert` returned, over the insertions
    /// of non-empty keys that passed through it.
    pub closed spec fn depth_spec(&self) -> u32 {
        self.depth
    }

    /// The value stored in this node itself.
    pub closed spec fn data_spec(&self) -> Option<T> {
        self.data
    }

    /// The node reached from this one by the child indices `path`.
    pub closed spec fn node_at(&self, path: Seq<int>) -> Option<Trie<T>>
        decreases path.len(),
    {
        if path.len() == 0 {
            Some(*self)
        } else if 0 <= path[0] < self.children@.len() && self.children@[path[0]] is Some {
            self.children@[path[0]]->Some_0.node_at(path.skip(1))
        } else {
            None
        }
    }

    /// The value stored at the node that the complete groups of `key` lead to.
    pub open spec fn get_spec(&self, key: Seq<u8>) -> Option<T> {
        self.value_at(path_of(key))
    }

    /// How far `path` leads into this trie.
    pub open spec fn status_at(&self, path: Seq<int>) -> IndexStatus {
        match self.node_at(path) {
            Some(t) => if t.data_spec() is Some {
                IndexStatus::FullMatch
            } else {
                IndexStatus::StartingMatch
            },
            None => IndexStatus::NoMatch,
        }
    }

    /// The value stored at the node that `path` leads to.
    pub open spec fn value_at(&self, path: Seq<int>) -> Option<T> {
        match self.node_at(path) {
            Some(t) => t.data_spec(),
            None => None,
        }
    }

    /// The sum kept at the node that `path` leads to.
    pub open spec fn depth_at(&self, path: Seq<int>) -> int {
        match self.node_at(path) {
            Some(t) => t.depth_spec() as int,
            None => 0,
        }
    }

    /// Every node that an insertion of `key` adds to has room for it.
    pub open spec fn has_room(&self, key: Seq<u8>) -> bool {
        forall|q: Seq<int>|
            q.is_prefix_of(walk_of(key)) && q.len() < walk_of(key).len() ==> #[trigger] self.depth_at(q)
                + insert_result(key) <= u32::MAX
    }

    /// An empty node.
    pub fn new() -> (t: Self)
        ensures
            t.wf(),
            t.data_spec() is None,
            t.depth_spec() == 0,
            t.is_fresh(),
            forall|path: Seq<int>| path.len() > 0 ==> t.node_at(path) is None,
            forall|path: Seq<int>| #[trigger] t.depth_at(path) == 0,
    {
        let mut children: Vec<Option<Box<Trie<T>>>> = Vec::with_capacity(KEY_LEN);
        let mut i: usize = 0;
        while i < KEY_LEN
            invariant
                i <= KEY_LEN,
                children@.len() == i,
                forall|j: int| 0 <= j < i ==> (#[trigger] children@[j]) is None,
            decreases KEY_LEN - i,
        {
            children.push(None);
            i += 1;
        }
        let t = Trie { data: None, depth: 0, children };
        proof {
            assert forall|path: Seq<int>| path.len() > 0 implies t.node_at(path) is None by {
                if 0 <= path[0] < t.children@.len() {
                    assert(t.children@[path[0]] is None);
                }
            }
            assert forall|q: Seq<int>| #[trigger] t.depth_at(q) == 0 by {
                if q.len() > 0 {
                    assert(t.node_at(q) is None);
                }
            }
        }
        t
    }

    /// The sum kept in this node.
    pub fn depth(&self) -> (d: u32)
        ensures
            d == self.depth_spec(),
    {
        self.depth
    }
}


/// Unfolding of `path_of` and `walk_of` by one group.
proof fn lemma_paths_unfold(key: Seq<u8>)
    ensures
        key.len() >= 4 ==> path_of(key) =~= seq![index_of(key)] + path_of(key.skip(4)),
        key.len() >= 4 ==> path_of(key).len() > 0 && path_of(key)[0] == index_of(key)
            && path_of(key).skip(1) =~= path_of(key.skip(4)),
        key.len() < 4 ==> path_of(key) =~= Seq::<int>::empty(),
        key.len() >= 4 ==> walk_of(key).len() > 0 && walk_of(key)[0] == index_of(key)
            && walk_of(key).skip(1) =~= walk_of(key.skip(4)),
        0 < key.len() < 4 ==> walk_of(key) =~= seq![index_of(key)],
        key.len() == 0 ==> walk_of(key) =~= Seq::<int>::empty(),
        key.len() >= 4 ==> insert_result(key.skip(4)) == insert_result(key),
{
}

impl<T: TrieData> Trie<T> {
    /// The node that the complete groups of `key` lead to, if it exists.
    pub fn get_sub_trie<'a>(&'a self, key: &[u8]) -> (r: Option<&'a Trie<T>>)
        requires
            self.wf(),
            valid_key(key@),
        ensures
            match r {
                Some(t) => self.node_at(path_of(key@)) == Some(*t) && t.wf(),
                None => self.node_at(path_of(key@)) is None,
            },
        decreases key@.len(),
    {
        let index = compute_index(key);
        proof {
            lemma_paths_unfold(key@);
        }
        if key.len() >= KEY_GROUP {
            match &self.children[index] {
                Some(a) => {
                    let rest = vstd::slice::slice_subrange(key, KEY_GROUP, key.len());
                    assert(rest@ =~= key@.skip(4));
                    a.get_sub_trie(rest)
                },
                None => None,
            }
        } else {
            Some(self)
        }
    }

    /// The value stored under `key`.
    pub fn get(&self, key: &[u8]) -> (r: Option<T>)
        requires
            self.wf(),
            valid_key(key@),
        ensures
            r == self.get_spec(key@),
    {
        let result = self.get_sub_trie(key);
        match result {
            Some(trie) => match trie.data {
                Some(data) => Some(data),
                _ => None,
            },
            _ => None,
        }
    }

    /// Whether a value is stored under `key`.
    pub fn contain(&self, key: &[u8]) -> (r: bool)
        requires
            self.wf(),
            valid_key(key@),
        ensures
            r == self.get_spec(key@).is_some(),
    {
        let trie_op = self.get_sub_trie(key);
        match trie_op {
            Some(trie) => {
                if trie.data.is_none() {
                    false
                } else {
                    true
                }
            },
            _ => false,
        }
    }

    /// How far `key`, made of complete groups, leads into the trie.
    pub fn index_base(&self, key: &[u8]) -> (r: IndexStatus)
        requires
            self.wf(),
            valid_key(key@),
            key@.len() % 4 == 0,
        ensures
            r == self.status_at(path_of(key@)),
        decreases key@.len(),
    {
        proof {
            lemma_paths_unfold(key@);
        }
        if key.len() == 0 {
            match self.data {
                Some(_) => IndexStatus::FullMatch,
                None => IndexStatus::StartingMatch,
            }
        } else {
            let index = compute_index(key);
            match &self.children[index] {
                Some(a) => {
                    let rest = vstd::slice::slice_subrange(key, KEY_GROUP, key.len());
                    assert(rest@ =~= key@.skip(4));
                    a.index_base(rest)
                },
                None => IndexStatus::NoMatch,
            }
        }
    }
}


/// Every child index of `path` is one that `delete_key` descends through.
pub open spec fn deletable(path: Seq<int>) -> bool {
    forall|i: int| 0 <= i < path.len() ==> #[trigger] path[i] >= KEY_GROUP
}

/// What an insertion of `key` with result `r` makes of the nodes of a trie,
/// from `before` to `after`.
pub open spec fn inserted<T: TrieData>(
    before: Trie<T>,
    after: Trie<T>,
    value: T,
    key: Seq<u8>,
    r: u32,
) -> bool {
    &&& forall|q: Seq<int>| #[trigger]
        after.value_at(q) == if key.len() % 4 == 0 && q == path_of(key) {
            Some(value)
        } else {
            before.value_at(q)
        }
    &&& forall|q: Seq<int>|
        (#[trigger] after.node_at(q)) is Some <==> before.node_at(q) is Some || q.is_prefix_of(
            walk_of(key),
        )
    &&& forall|q: Seq<int>| #[trigger]
        after.depth_at(q) == before.depth_at(q) + if q.is_prefix_of(walk_of(key)) && q.len()
            < walk_of(key).len() {
            r as int
        } else {
            0
        }
}

impl<T: TrieData> Trie<T> {
    /// This node has no child and holds nothing.
    pub closed spec fn is_fresh(&self) -> bool {
        &&& self.data is None
        &&& self.depth == 0
        &&& self.children@.len() == KEY_LEN
        &&& forall|i: int| 0 <= i < self.children@.len() ==> (#[trigger] self.children@[i]) is None
    }

    /// `self` differs from `before` in the child at `index`, which is `child`,
    /// and in its sum, which grew by `r`.
    closed spec fn stepped(&self, before: Trie<T>, index: int, child: Trie<T>, r: u32) -> bool {
        &&& self.data == before.data
        &&& self.depth == before.depth + r
        &&& self.children@.len() == KEY_LEN
        &&& before.children@.len() == KEY_LEN
        &&& 0 <= index < KEY_LEN
        &&& self.children@[index] == Some(Box::new(child))
        &&& forall|i: int|
            0 <= i < KEY_LEN && i != index ==> #[trigger] self.children@[i] == before.children@[i]
    }

    /// A path starts another exactly if their first indices agree and the
    /// rest of the one starts the rest of the other.
    proof fn lemma_prefix_step(q: Seq<int>, walk: Seq<int>)
        requires
            q.len() > 0,
            walk.len() > 0,
        ensures
            q.is_prefix_of(walk) <==> q[0] == walk[0] && q.skip(1).is_prefix_of(walk.skip(1)),
    {
        if q[0] == walk[0] && q.skip(1).is_prefix_of(walk.skip(1)) {
            assert forall|i: int| 0 <= i < q.len() implies q[i] == walk[i] by {
                if i > 0 {
                    assert(q.skip(1)[i - 1] == walk.skip(1)[i - 1]);
                }
            }
            assert(q =~= walk.subrange(0, q.len() as int));
        }
        if q.is_prefix_of(walk) {
            assert(q.skip(1) =~= walk.skip(1).subrange(0, q.len() - 1));
        }
    }

    /// Room at a node for `key` gives room at its child for the rest of `key`.
    proof fn lemma_child_room(before: Trie<T>, child0: Trie<T>, key: Seq<u8>)
        requires
            key.len() >= 4,
            0 <= index_of(key) < before.children@.len(),
            before.has_room(key),
            before.children@[index_of(key)] is Some ==> child0 == *before.children@[index_of(
                key,
            )]->Some_0,
            before.children@[index_of(key)] is None ==> child0.is_fresh(),
        ensures
            child0.has_room(key.skip(4)),
    {
        lemma_paths_unfold(key);
        let rest = key.skip(4);
        let index = index_of(key);
        assert forall|q: Seq<int>|
            q.is_prefix_of(walk_of(rest)) && q.len() < walk_of(rest).len() implies #[trigger] child0.depth_at(
            q,
        ) + insert_result(rest) <= u32::MAX by {
            if before.children@[index] is Some {
                let full = seq![index] + q;
                assert(full.skip(1) =~= q);
                Self::lemma_prefix_step(full, walk_of(key));
                assert(before.node_at(full) == child0.node_at(q));
                assert(before.depth_at(full) + insert_result(key) <= u32::MAX);
            } else {
                if q.len() > 0 {
                    if 0 <= q[0] < 16 {
                        assert(child0.children@[q[0]] is None);
                    }
                    assert(child0.node_at(q) is None);
                }
            }
        }
    }

    /// One level of an insertion: the child at `index` went from `child0`
    /// (fresh where the old node had none) to `child1`.
    proof fn lemma_insert_step(
        before: Trie<T>,
        after: Trie<T>,
        child0: Trie<T>,
        child1: Trie<T>,
        value: T,
        key: Seq<u8>,
        r: u32,
    )
        requires
            key.len() > 0,
            r == insert_result(key),
            after.stepped(before, index_of(key), child1, r),
            before.children@[index_of(key)] is Some ==> child0 == *before.children@[index_of(
                key,
            )]->Some_0,
            before.children@[index_of(key)] is None ==> child0.is_fresh(),
            key.len() >= 4 ==> inserted(child0, child1, value, key.skip(4), r),
            key.len() < 4 ==> child1 == child0,
        ensures
            inserted(before, after, value, key, r),
    {
        lemma_paths_unfold(key);
        let index = index_of(key);
        let walk = walk_of(key);
        let had = before.children@[index] is Some;
        assert forall|q: Seq<int>|
            (#[trigger] after.node_at(q)) is Some <==> before.node_at(q) is Some || q.is_prefix_of(
                walk,
            ) by {
            Self::lemma_node_step(before, after, child0, child1, value, key, r, q);
        }
        assert forall|q: Seq<int>| #[trigger]
            after.value_at(q) == if key.len() % 4 == 0 && q == path_of(key) {
                Some(value)
            } else {
                before.value_at(q)
            } by {
            Self::lemma_node_step(before, after, child0, child1, value, key, r, q);
        }
        assert forall|q: Seq<int>| #[trigger]
            after.depth_at(q) == before.depth_at(q) + if q.is_prefix_of(walk) && q.len()
                < walk.len() {
                r as int
            } else {
                0
            } by {
            Self::lemma_node_step(before, after, child0, child1, value, key, r, q);
        }
    }

    /// The three clauses of `inserted` at one path `q`.
    proof fn lemma_node_step(
        before: Trie<T>,
        after: Trie<T>,
        child0: Trie<T>,
        child1: Trie<T>,
        value: T,
        key: Seq<u8>,
        r: u32,
        q: Seq<int>,
    )
        requires
            key.len() > 0,
            r == insert_result(key),
            after.stepped(before, index_of(key), child1, r),
            before.children@[index_of(key)] is Some ==> child0 == *before.children@[index_of(
                key,
            )]->Some_0,
            before.children@[index_of(key)] is None ==> child0.is_fresh(),
            key.len() >= 4 ==> inserted(child0, child1, value, key.skip(4), r),
            key.len() < 4 ==> child1 == child0,
        ensures
            after.node_at(q) is Some <==> before.node_at(q) is Some || q.is_prefix_of(
                walk_of(key),
            ),
            after.value_at(q) == if key.len() % 4 == 0 && q == path_of(key) {
                Some(value)
            } else {
                before.value_at(q)
            },
            after.depth_at(q) == before.depth_at(q) + if q.is_prefix_of(walk_of(key)) && q.len()
                < walk_of(key).len() {
                r as int
            } else {
                0
            },
    {
        lemma_paths_unfold(key);
        let index = index_of(key);
        let walk = walk_of(key);
        let had = before.children@[index] is Some;
        if q.len() == 0 {
            assert(q.is_prefix_of(walk));
            assert(q != path_of(key) || key.len() % 4 != 0) by {
                if key.len() >= 4 {
                    assert(path_of(key).len() > 0);
                }
            }
        } else if q[0] != index {
            if 0 <= q[0] < 16 {
                assert(after.children@[q[0]] == before.children@[q[0]]);
            }
            assert(!q.is_prefix_of(walk));
            assert(q != path_of(key) || key.len() < 4);
        } else {
            let t = q.skip(1);
            Self::lemma_prefix_step(q, walk);
            assert(after.node_at(q) == child1.node_at(t));
            assert(q == path_of(key) <==> key.len() >= 4 && t == path_of(key.skip(4))) by {
                if key.len() >= 4 && t == path_of(key.skip(4)) {
                    assert(q =~= seq![index] + t);
                }
            }
            if had {
                assert(before.node_at(q) == child0.node_at(t));
            } else {
                assert(before.node_at(q) is None);
                if t.len() > 0 {
                    if 0 <= t[0] < 16 {
                        assert(child0.children@[t[0]] is None);
                    }
                    assert(child0.node_at(t) is None);
                } else {
                    assert(child0.node_at(t) == Some(child0));
                }
            }
            if key.len() >= 4 {
                let rest = key.skip(4);
                assert(walk.skip(1) =~= walk_of(rest));
                assert(child1.node_at(t) is Some <==> child0.node_at(t) is Some || t.is_prefix_of(
                    walk_of(rest),
                ));
                assert(child1.value_at(t) == if rest.len() % 4 == 0 && t == path_of(rest) {
                    Some(value)
                } else {
                    child0.value_at(t)
                });
                assert(child1.depth_at(t) == child0.depth_at(t) + if t.is_prefix_of(walk_of(rest))
                    && t.len() < walk_of(rest).len() {
                    r as int
                } else {
                    0
                });
                assert(rest.len() % 4 == key.len() % 4);
                if !had && t.is_prefix_of(walk_of(rest)) && t.len() == 0 {
                }
            } else {
                assert(walk.len() == 1);
                assert(walk.skip(1).len() == 0);
                assert(t.is_prefix_of(walk.skip(1)) <==> t.len() == 0);
            }
        }
    }

    /// Stores `value` under `key` when `key` is made of complete groups, and
    /// creates the nodes on the way of `key` in either case. Returns 1 for a
    /// key of complete groups and `PARTIAL_KEY` otherwise; each node passed
    /// with digits left adds the returned number to its sum.
    pub fn insert(&mut self, value: T, key: &[u8]) -> (r: u32)
        requires
            old(self).wf(),
            valid_key(key@),
            old(self).has_room(key@),
        ensures
            final(self).wf(),
            r == insert_result(key@),
            inserted(*old(self), *final(self), value, key@, r),
            final(self).depth_spec() == old(self).depth_spec() + if key@.len() > 0 {
                r as int
            } else {
                0
            },
        decreases key@.len(),
    {
        proof {
            lemma_paths_unfold(key@);
        }
        if key.len() == 0 {
            self.data = Some(value);
            proof {
                let before = *old(self);
                let after = *self;
                let empty = Seq::<int>::empty();
                assert(path_of(key@) =~= empty);
                assert(walk_of(key@) =~= empty);
                assert forall|q: Seq<int>| q.len() == 0 implies q == empty by {
                    assert(q =~= empty);
                }
                assert forall|q: Seq<int>| q.len() > 0 implies #[trigger] after.node_at(q)
                    == before.node_at(q) && !q.is_prefix_of(empty) && q != empty by {}
                assert(after.node_at(empty) == Some(after));
                assert(before.node_at(empty) == Some(before));
                assert(empty.is_prefix_of(empty));
                assert forall|q: Seq<int>| #[trigger]
                    after.value_at(q) == if key@.len() % 4 == 0 && q == path_of(key@) {
                        Some(value)
                    } else {
                        before.value_at(q)
                    } by {
                    if q.len() == 0 {
                    } else {
                        assert(after.node_at(q) == before.node_at(q));
                    }
                }
                assert forall|q: Seq<int>|
                    (#[trigger] after.node_at(q)) is Some <==> before.node_at(q) is Some
                        || q.is_prefix_of(walk_of(key@)) by {
                    if q.len() == 0 {
                    } else {
                        assert(after.node_at(q) == before.node_at(q));
                    }
                }
                assert forall|q: Seq<int>| #[trigger]
                    after.depth_at(q) == before.depth_at(q) + if q.is_prefix_of(walk_of(key@))
                        && q.len() < walk_of(key@).len() {
                        1int
                    } else {
                        0
                    } by {
                    if q.len() == 0 {
                    } else {
                        assert(after.node_at(q) == before.node_at(q));
                    }
                }
            }
            return 1;
        } else {
            let index = compute_index(key);
            let ghost before = *self;
            let ghost res = insert_result(key@);
            assert(before.depth_at(Seq::<int>::empty()) + res <= u32::MAX) by {
                assert(Seq::<int>::empty().is_prefix_of(walk_of(key@)));
            }
            if self.children[index].is_none() {
                let fresh = Trie::new();
                self.children.set(index, Some(Box::new(fresh)));
            }
            let ghost child0 = *self.children@[index as int]->Some_0;
            assert(child0.wf());
            let added = if key.len() >= KEY_GROUP {
                let rest = vstd::slice::slice_subrange(key, KEY_GROUP, key.len());
                assert(rest@ =~= key@.skip(4));
                proof {
                    Self::lemma_child_room(before, child0, key@);
                }
                match &mut self.children[index] {
                    Some(a) => a.insert(value, rest),
                    None => 0,
                }
            } else {
                PARTIAL_KEY
            };
            self.depth += added;
            proof {
                let after = *self;
                let child1 = *after.children@[index as int]->Some_0;
                assert(after.children@[index as int] == Some(Box::new(child1)));
                assert(after.stepped(before, index as int, child1, added));
                Self::lemma_insert_step(before, after, child0, child1, value, key@, added);
                assert(after.wf()) by {
                    assert forall|i: int|
                        0 <= i < after.children@.len() && (#[trigger] after.children@[i]) is Some
                        implies after.children@[i]->Some_0.wf() by {
                        if i != index {
                            assert(after.children@[i] == before.children@[i]);
                        }
                    }
                }
            }
            return added;
        }
    }
}

/// What a deletion of `key` makes of the nodes of a trie, from `before` to
/// `after`: the value under `key` is gone if every child index on the way is
/// one that the deletion descends through, and nothing else changes.
pub open spec fn deleted<T: TrieData>(before: Trie<T>, after: Trie<T>, key: Seq<u8>) -> bool {
    &&& forall|q: Seq<int>| #[trigger]
        after.value_at(q) == if q == path_of(key) && deletable(q) {
            None
        } else {
            before.value_at(q)
        }
    &&& forall|q: Seq<int>| (#[trigger] after.node_at(q)) is Some <==> before.node_at(q) is Some
    &&& forall|q: Seq<int>| #[trigger] after.depth_at(q) == before.depth_at(q)
}

impl<T: TrieData> Trie<T> {
    /// A path is one a deletion follows exactly if its first index is and the
    /// rest of the path is.
    proof fn lemma_deletable_step(q: Seq<int>)
        requires
            q.len() > 0,
        ensures
            deletable(q) <==> q[0] >= KEY_GROUP && deletable(q.skip(1)),
    {
        let t = q.skip(1);
        if q[0] >= KEY_GROUP && deletable(t) {
            assert forall|i: int| 0 <= i < q.len() implies #[trigger] q[i] >= KEY_GROUP by {
                if i > 0 {
                    assert(t[i - 1] >= KEY_GROUP);
                }
            }
        }
        if deletable(q) {
            assert forall|i: int| 0 <= i < t.len() implies #[trigger] t[i] >= KEY_GROUP by {
                assert(q[i + 1] >= KEY_GROUP);
            }
        }
    }

    /// The clauses of `deleted` at one path `q`, one level up from the child.
    proof fn lemma_delete_step(
        before: Trie<T>,
        after: Trie<T>,
        child0: Trie<T>,
        child1: Trie<T>,
        key: Seq<u8>,
        q: Seq<int>,
    )
        requires
            key.len() >= 4,
            index_of(key) >= KEY_GROUP,
            after.stepped(before, index_of(key), child1, 0),
            before.children@[index_of(key)] == Some(Box::new(child0)),
            deleted(child0, child1, key.skip(4)),
        ensures
            after.node_at(q) is Some <==> before.node_at(q) is Some,
            after.value_at(q) == if q == path_of(key) && deletable(q) {
                None
            } else {
                before.value_at(q)
            },
            after.depth_at(q) == before.depth_at(q),
    {
        lemma_paths_unfold(key);
        let index = index_of(key);
        if q.len() == 0 {
            assert(path_of(key).len() > 0);
        } else if q[0] != index {
            if 0 <= q[0] < 16 {
                assert(after.children@[q[0]] == before.children@[q[0]]);
            }
        } else {
            let t = q.skip(1);
            Self::lemma_deletable_step(q);
            assert(after.node_at(q) == child1.node_at(t));
            assert(before.node_at(q) == child0.node_at(t));
            assert(q == path_of(key) <==> t == path_of(key.skip(4))) by {
                if t == path_of(key.skip(4)) {
                    assert(q =~= seq![index] + t);
                }
            }
            assert(child1.node_at(t) is Some <==> child0.node_at(t) is Some);
            assert(child1.value_at(t) == if t == path_of(key.skip(4)) && deletable(t) {
                None
            } else {
                child0.value_at(t)
            });
            assert(child1.depth_at(t) == child0.depth_at(t));
        }
    }

    /// Removes the value stored under `key`, a key of complete groups, if
    /// every child index on its way is at least `KEY_GROUP`; otherwise the
    /// trie stays as it is.
    pub fn delete_key(&mut self, key: &[u8])
        requires
            old(self).wf(),
            valid_key(key@),
            key@.len() % 4 == 0,
        ensures
            final(self).wf(),
            deleted(*old(self), *final(self), key@),
        decreases key@.len(),
    {
        proof {
            lemma_paths_unfold(key@);
        }
        let ghost before = *self;
        if key.len() == 0 {
            self.data = None;
            proof {
                let after = *self;
                let empty = Seq::<int>::empty();
                assert(path_of(key@) =~= empty);
                assert(deletable(empty));
                assert forall|q: Seq<int>| q.len() == 0 implies q == empty by {
                    assert(q =~= empty);
                }
                assert forall|q: Seq<int>| q.len() > 0 implies #[trigger] after.node_at(q)
                    == before.node_at(q) && q != empty by {}
                assert(after.node_at(empty) == Some(after));
                assert(before.node_at(empty) == Some(before));
                assert forall|q: Seq<int>| #[trigger]
                    after.value_at(q) == if q == path_of(key@) && deletable(q) {
                        None
                    } else {
                        before.value_at(q)
                    } by {
                    if q.len() > 0 {
                        assert(after.node_at(q) == before.node_at(q));
                    }
                }
                assert forall|q: Seq<int>|
                    (#[trigger] after.node_at(q)) is Some <==> before.node_at(q) is Some by {
                    if q.len() > 0 {
                        assert(after.node_at(q) == before.node_at(q));
                    }
                }
                assert forall|q: Seq<int>| #[trigger]
                    after.depth_at(q) == before.depth_at(q) by {
                    if q.len() > 0 {
                        assert(after.node_at(q) == before.node_at(q));
                    }
                }
            }
        } else {
            let index = compute_index(key);
            if index >= KEY_GROUP && self.children[index].is_some() {
                let ghost child0 = *self.children@[index as int]->Some_0;
                let rest = vstd::slice::slice_subrange(key, KEY_GROUP, key.len());
                assert(rest@ =~= key@.skip(4));
                match &mut self.children[index] {
                    Some(a) => {
                        a.delete_key(rest);
                    },
                    None => {},
                }
                proof {
                    let after = *self;
                    let child1 = *after.children@[index as int]->Some_0;
                    assert(after.children@[index as int] == Some(Box::new(child1)));
                    assert(before.children@[index as int] == Some(Box::new(child0)));
                    assert(after.stepped(before, index as int, child1, 0));
                    assert forall|q: Seq<int>| #[trigger]
                        after.value_at(q) == if q == path_of(key@) && deletable(q) {
                            None
                        } else {
                            before.value_at(q)
                        } by {
                        Self::lemma_delete_step(before, after, child0, child1, key@, q);
                    }
                    assert forall|q: Seq<int>|
                        (#[trigger] after.node_at(q)) is Some <==> before.node_at(q) is Some by {
                        Self::lemma_delete_step(before, after, child0, child1, key@, q);
                    }
                    assert forall|q: Seq<int>| #[trigger]
                        after.depth_at(q) == before.depth_at(q) by {
                        Self::lemma_delete_step(before, after, child0, child1, key@, q);
                    }
                    assert(after.wf()) by {
                        assert forall|i: int|
                            0 <= i < after.children@.len() && (#[trigger] after.children@[i]) is Some
                            implies after.children@[i]->Some_0.wf() by {
                            if i != index {
                                assert(after.children@[i] == before.children@[i]);
                            }
                        }
                    }
                }
            } else {
                proof {
                    // nothing below was touched: either the way of `key` is not
                    // one that a deletion follows, or no node lies on it
                    assert forall|q: Seq<int>| q == path_of(key@) && deletable(q)
                        implies before.value_at(q) is None by {
                        assert(q.len() > 0 && q[0] == index);
                        if index >= KEY_GROUP {
                            assert(before.node_at(q) is None);
                        } else {
                            assert(q[0] >= KEY_GROUP);
                        }
                    }
                }
            }
        }
    }
}

/// Every digit of `key` is `0` or `1`.
pub open spec fn binary_key(key: Seq<u8>) -> bool {
    forall|i: int| 0 <= i < key.len() ==> #[trigger] key[i] == 48 || key[i] == 49
}

/// A complete group of binary digits names the child that its digits
/// spell, lowest digit first.
proof fn lemma_group_index(key: Seq<u8>)
    requires
        key.len() >= 4,
    ensures
        index_of(key) == (key[0] - 48) + 2 * (key[1] - 48) + 4 * (key[2] - 48) + 8 * (key[3] - 48),
{
    lemma_pow2_small();
    assert(group_len(key) == 4);
    assert(digit_sum(key, 0) == 0);
    assert(digit_sum(key, 1) == digit_sum(key, 0) + (key[0] - 48) * 1);
    assert(digit_sum(key, 2) == digit_sum(key, 1) + (key[1] - 48) * 2);
    assert(digit_sum(key, 3) == digit_sum(key, 2) + (key[2] - 48) * 4);
    assert(digit_sum(key, 4) == digit_sum(key, 3) + (key[3] - 48) * 8);
}

/// Keys of binary digits in complete groups name a node each: two
/// different keys lead to different nodes.
pub proof fn law_binary_keys_have_their_own_path(k1: Seq<u8>, k2: Seq<u8>)
    requires
        binary_key(k1),
        binary_key(k2),
        k1.len() % 4 == 0,
        k2.len() % 4 == 0,
        k1 != k2,
    ensures
        path_of(k1) != path_of(k2),
    decreases k1.len(),
{
    lemma_paths_unfold(k1);
    lemma_paths_unfold(k2);
    if k1.len() == 0 || k2.len() == 0 {
        if k1.len() == 0 && k2.len() == 0 {
            assert(k1 =~= k2);
        }
    } else {
        lemma_group_index(k1);
        lemma_group_index(k2);
        let r1 = k1.skip(4);
        let r2 = k2.skip(4);
        if k1[0] == k2[0] && k1[1] == k2[1] && k1[2] == k2[2] && k1[3] == k2[3] {
            if r1 == r2 {
                assert forall|i: int| 0 <= i < k1.len() implies k1[i] == k2[i] by {
                    if i >= 4 {
                        assert(k1[i] == r1[i - 4]);
                        assert(k2[i] == r2[i - 4]);
                    }
                }
                assert(k1.len() == r1.len() + 4 && k2.len() == r2.len() + 4);
                assert(k1 =~= k2);
            }
            assert forall|i: int| 0 <= i < r1.len() implies #[trigger] r1[i] == 48 || r1[i]
                == 49 by {
                assert(r1[i] == k1[i + 4]);
            }
            assert forall|i: int| 0 <= i < r2.len() implies #[trigger] r2[i] == 48 || r2[i]
                == 49 by {
                assert(r2[i] == k2[i + 4]);
            }
            law_binary_keys_have_their_own_path(r1, r2);
        } else {
            assert(index_of(k1) != index_of(k2));
        }
    }
}

} // verus!
