//! What the slots and words of the arena may hold, and what of a node never
//! changes.
use crate::lockfree_cchamt::{LockfreeTrie, Node, TrieData, TrieKey, NARROW, NULL, WIDE};
use vstd::prelude::*;

verus! {

impl<K: TrieKey, V: TrieData> LockfreeTrie<K, V> {
    /// The arena has grown, and each node that was there is the same but for
    /// the words that compare-and-swap may change.
    pub open spec fn kept_words(&self, later: &Self) -> bool {
        &&& self.nodes().len() <= later.nodes().len()
        &&& self.metas().len() == self.nodes().len()
        &&& later.metas().len() == later.nodes().len()
        &&& later.root_spec() == self.root_spec()
        &&& later.cache_spec() == self.cache_spec()
        &&& forall|a: int|
            0 <= a < self.nodes().len() ==> (#[trigger] self.nodes()[a]).kept_as(later.nodes()[a])
                && self.metas()[a].path == later.metas()[a].path
    }

    /// As `kept_words`, and no array node has come back into the live trie,
    /// a frozen one is frozen, and a wide array node that stood in a slot
    /// of an array node of the live trie stands there.
    pub open spec fn kept(&self, later: &Self) -> bool {
        &&& self.kept_words(later)
        &&& forall|a: usize| self.valid(a) && #[trigger] self.hardened(a) ==> later.hardened(a)
        &&& forall|a: usize|
            self.valid(a) && #[trigger] self.metas()[a as int].retired ==> later.metas()[a as int].retired
        &&& forall|a: usize, i: int|
            #![trigger self.slots(a)[i]]
            self.is_arr(a) && 0 <= i < self.slots(a).len() && self.wide_arr(self.slots(a)[i])
                && !later.metas()[a as int].retired ==> later.slots(a)[i] == self.slots(a)[i]
    }

    /// The array node at `a` has left the live trie with every slot in its
    /// frozen form.
    pub open spec fn hardened(&self, a: usize) -> bool {
        self.metas()[a as int].retired && self.metas()[a as int].upto >= self.slots(a).len()
    }

    /// `c` is the address of a wide array node.
    pub open spec fn wide_arr(&self, c: usize) -> bool {
        self.is_arr(c) && self.slots(c).len() == WIDE
    }

    /// Everything below the address `base` is as it was.
    pub open spec fn same_below(&self, later: &Self, base: usize) -> bool {
        forall|a: usize| self.valid(a) && a < base ==> #[trigger] self.same_at(later, a)
    }

    /// The slots and `txn` words hold what they may hold: a slot is empty or
    /// refers to a data, array, expansion, array-frozen or empty-frozen node;
    /// a `txn` refers to the no-transaction or the data-frozen marker, or to
    /// the data or array node that replaces the data node. A frozen wrapper
    /// and an expansion node refer to array nodes.
    pub open spec fn typed(&self) -> bool {
        &&& self.metas().len() == self.nodes().len()
        &&& !self.valid(NULL)
        &&& forall|a: usize| self.valid(a) ==> #[trigger] self.node_typed(a)
    }

    /// The node at `a` holds, in its slots or its words, what it may hold, and
    /// a wrapper refers to nodes older than itself.
    pub open spec fn node_typed(&self, a: usize) -> bool {
        match self.nodes()[a as int] {
            Node::SNode { txn, .. } => self.valid(txn) && (self.nodes()[txn as int] is NoTxn
                || self.nodes()[txn as int] is FSNode || self.nodes()[txn as int] is SNode
                || self.nodes()[txn as int] is ANode),
            Node::ANode(_) => (self.slots(a).len() == NARROW || self.slots(a).len() == WIDE)
                && forall|i: int|
                0 <= i < self.slots(a).len() ==> self.slot_typed(#[trigger] self.slots(a)[i]),
            Node::FNode { frozen } => self.is_arr(frozen) && frozen < a,
            Node::ENode { parent, parentpos, narrow, wide, .. } => self.is_arr(parent) && parentpos
                < self.slots(parent).len() && self.is_arr(narrow) && (wide == NULL || self.is_arr(
                wide,
            )) && parent < a && narrow < a,
            _ => true,
        }
    }

    /// The address `c` may stand in a slot.
    pub open spec fn slot_typed(&self, c: usize) -> bool {
        c == NULL || (self.valid(c) && (self.nodes()[c as int] is SNode
            || self.nodes()[c as int] is ANode || self.nodes()[c as int] is ENode
            || self.nodes()[c as int] is FNode || self.nodes()[c as int] is FVNode))
    }

    /// The slots of the array nodes of `self` hold the same in `later`, but
    /// perhaps slot `i0` of `a0`.
    pub open spec fn slots_same_but(&self, later: &Self, a0: usize, i0: int) -> bool {
        forall|a: usize, i: int|
            self.is_arr(a) && 0 <= i < self.slots(a).len() && !(a == a0 && i == i0)
                ==> #[trigger] later.slots(a)[i] == self.slots(a)[i]
    }

    /// The array nodes above the depth `d` and the expansion nodes are as
    /// they were.
    pub open spec fn same_above(&self, later: &Self, d: int) -> bool {
        forall|a: usize|
            self.valid(a) && self.nodes()[a as int] is ANode && self.depth(a) < d
                ==> #[trigger] self.same_at(later, a)
    }

    /// The expansion nodes are as they were.
    pub open spec fn same_exp(&self, later: &Self) -> bool {
        forall|a: usize|
            self.valid(a) && self.nodes()[a as int] is ENode ==> #[trigger] self.same_at(later, a)
    }

    /// The node at `a` and what is known of it are as they were.
    pub open spec fn same_at(&self, later: &Self, a: usize) -> bool {
        later.nodes()[a as int] == self.nodes()[a as int] && later.metas()[a as int]
            == self.metas()[a as int]
    }

    /// `kept` carries over two steps.
    pub proof fn lemma_kept_trans(s1: &Self, s2: &Self, s3: &Self)
        requires
            s1.kept(s2),
            s2.kept(s3),
        ensures
            s1.kept(s3),
    {
        assert forall|a: int| 0 <= a < s1.nodes().len() implies (#[trigger] s1.nodes()[a]).kept_as(
            s3.nodes()[a],
        ) && s1.metas()[a].path == s3.metas()[a].path by {
            assert(s1.nodes()[a].kept_as(s2.nodes()[a]));
            assert(s2.nodes()[a].kept_as(s3.nodes()[a]));
        }
    }

    /// `later` is `self` with one node more, `added`.
    pub open spec fn grown_by(&self, later: &Self, added: usize) -> bool {
        &&& added == self.nodes().len()
        &&& later.nodes().len() == self.nodes().len() + 1
        &&& later.metas().len() == later.nodes().len()
        &&& later.root_spec() == self.root_spec()
        &&& later.cache_spec() == self.cache_spec()
        &&& forall|a: int|
            0 <= a < self.nodes().len() ==> #[trigger] later.nodes()[a] == self.nodes()[a]
                && later.metas()[a] == self.metas()[a]
    }

    /// The `txn` of the data node at `a` conforms.
    pub open spec fn txn_typed(&self, a: usize) -> bool {
        let txn = self.nodes()[a as int].txn();
        self.valid(txn) && (self.nodes()[txn as int] is NoTxn || self.nodes()[txn as int] is FSNode
            || self.nodes()[txn as int] is SNode || self.nodes()[txn as int] is ANode)
    }

    /// The slots and `txn` words conform after a change that put nothing
    /// but conforming addresses into the words it changed.
    pub(crate) proof fn lemma_typed_after(s1: &Self, s2: &Self, a0: usize, i0: int)
        requires
            s1.typed(),
            s1.kept_words(s2),
            s1.slots_same_but(s2, a0, i0),
            s1.is_arr(a0) && 0 <= i0 < s1.slots(a0).len() ==> s2.slot_typed(s2.slots(a0)[i0]),
            forall|a: usize|
                s1.valid(a) && s1.nodes()[a as int] is SNode ==> s2.nodes()[a as int].txn()
                    == s1.nodes()[a as int].txn() || #[trigger] s2.txn_typed(a),
            forall|a: usize|
                s1.valid(a) && s1.nodes()[a as int] is ENode ==> #[trigger] s2.nodes()[a as int]
                    == s1.nodes()[a as int] || s2.is_arr(s2.nodes()[a as int]->wide),
            forall|a: usize| s2.valid(a) && !s1.valid(a) ==> #[trigger] s2.node_typed(a),
            s2.metas().len() == s2.nodes().len(),
            !s2.valid(NULL),
        ensures
            s2.typed(),
    {
        assert forall|a: usize| s2.valid(a) implies #[trigger] s2.node_typed(a) by {
            if s1.valid(a) {
                assert(s1.node_typed(a));
                assert(s1.nodes()[a as int].kept_as(s2.nodes()[a as int]));
                match s1.nodes()[a as int] {
                    Node::SNode { txn, .. } => {
                        assert(s1.nodes()[txn as int].kept_as(s2.nodes()[txn as int]));
                        if s2.nodes()[a as int].txn() != txn {
                            assert(s2.txn_typed(a));
                        }
                    },
                    Node::ANode(_) => {
                        assert forall|j: int| 0 <= j < s2.slots(a).len() implies s2.slot_typed(
                            #[trigger] s2.slots(a)[j],
                        ) by {
                            if a == a0 && j == i0 {
                            } else {
                                let c = s1.slots(a)[j];
                                assert(s2.slots(a)[j] == c);
                                assert(s1.slot_typed(c));
                                if c != NULL {
                                    assert(s1.nodes()[c as int].kept_as(s2.nodes()[c as int]));
                                }
                            }
                        }
                    },
                    Node::FNode { frozen } => {
                        assert(s1.nodes()[frozen as int].kept_as(s2.nodes()[frozen as int]));
                    },
                    Node::ENode { parent, narrow, wide, .. } => {
                        assert(s1.nodes()[parent as int].kept_as(s2.nodes()[parent as int]));
                        assert(s1.nodes()[narrow as int].kept_as(s2.nodes()[narrow as int]));
                        if s2.nodes()[a as int] == s1.nodes()[a as int] {
                            if wide != NULL {
                                assert(s1.nodes()[wide as int].kept_as(s2.nodes()[wide as int]));
                            }
                        }
                    },
                    _ => {},
                }
            }
        }
    }

    /// `same_above` carries over two steps.
    pub proof fn lemma_above_trans(s1: &Self, s2: &Self, s3: &Self, d: int, d1: int, d2: int)
        requires
            s1.kept(s2),
            s1.same_above(s2, d1),
            s2.same_above(s3, d2),
            d <= d1,
            d <= d2,
        ensures
            s1.same_above(s3, d),
    {
        assert forall|a: usize|
            s1.valid(a) && s1.nodes()[a as int] is ANode && s1.depth(a) < d
            implies #[trigger] s1.same_at(s3, a) by {
            assert(s2.valid(a));
            assert(s1.same_at(s2, a));
            assert(s2.depth(a) == s1.depth(a));
            assert(s2.same_at(s3, a));
        }
    }

    /// `same_below` carries over two steps.
    pub proof fn lemma_below_trans(s1: &Self, s2: &Self, s3: &Self, base: usize, b1: usize, b2: usize)
        requires
            s1.kept(s2),
            s1.same_below(s2, b1),
            s2.same_below(s3, b2),
            base <= b1,
            base <= b2,
        ensures
            s1.same_below(s3, base),
    {
        assert forall|a: usize| s1.valid(a) && a < base implies #[trigger] s1.same_at(s3, a) by {
            assert(s1.same_at(s2, a));
            assert(s2.same_at(s3, a));
        }
    }

    /// Nothing has changed in a state compared with itself.
    pub proof fn lemma_refl(s: &Self)
        requires
            s.typed(),
        ensures
            s.kept(s),
            s.same_lookups(s),
            s.frees(s),
            forall|b: usize| s.same_below(s, b),
            forall|d: int| s.same_above(s, d),
            s.same_exp(s),
    {
        assert forall|a: int| 0 <= a < s.nodes().len() implies (#[trigger] s.nodes()[a]).kept_as(
            s.nodes()[a],
        ) by {}
    }
}

} // verus!
