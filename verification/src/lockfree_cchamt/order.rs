//! The order of the arena between two transitions of an operation, and the
//! steps that keep it.
use crate::lockfree_cchamt::{
    on_path, slot_index, LockfreeTrie, Meta, Node, Target, TrieData, TrieKey, NARROW, NULL, WIDE,
};
use vstd::prelude::*;

verus! {

impl<K: TrieKey, V: TrieData> LockfreeTrie<K, V> {
    /// Slot `i` of the array node `a` has not reached its frozen form.
    pub open spec fn open_slot(&self, a: usize, i: int) -> bool {
        !self.metas()[a as int].retired || i >= self.metas()[a as int].upto
    }

    /// The way to what stands in slot `i` of the array node `a`.
    pub open spec fn child_path(&self, a: usize, i: int) -> Seq<(bool, int)> {
        self.path(a).push((self.slots(a).len() == WIDE, i))
    }

    /// The array node at `a` has left the live trie.
    pub open spec fn retired(&self, a: usize) -> bool {
        self.metas()[a as int].retired
    }

    /// Every slot of the array node `a` has reached its frozen form.
    pub open spec fn frozen(&self, a: usize) -> bool {
        self.retired(a) && self.metas()[a as int].upto >= self.slots(a).len()
    }

    /// What slot `i` of the array node `a` may hold. An array node of the
    /// live trie holds data nodes that nothing has replaced or frozen, and
    /// live array nodes; one taken out of it holds frozen forms in the slots
    /// it has been frozen up to. An expansion node stands only in the slot
    /// `hole`, or in an array node below `base`.
    pub open spec fn slot_ok(&self, base: usize, hole: Option<(usize, int)>, a: usize, i: int) -> bool {
        let c = self.slots(a)[i];
        if c == NULL {
            self.open_slot(a, i)
        } else {
            &&& self.valid(c)
            &&& a >= base ==> c >= base
            &&& match self.nodes()[c as int] {
                Node::SNode { hash, txn, .. } => {
                    &&& on_path(hash, self.child_path(a, i))
                    &&& self.valid(txn)
                    &&& if self.open_slot(a, i) {
                        self.nodes()[txn as int] is NoTxn
                    } else {
                        self.nodes()[txn as int] is FSNode
                    }
                },
                Node::ANode(_) => {
                    &&& self.open_slot(a, i)
                    &&& !self.retired(c)
                    &&& self.path(c) == self.child_path(a, i)
                },
                Node::FVNode => self.retired(a) && !self.open_slot(a, i),
                Node::FNode { frozen } => {
                    &&& self.retired(a)
                    &&& self.is_arr(frozen)
                    &&& self.retired(frozen)
                    &&& self.path(frozen) == self.child_path(a, i)
                    &&& !self.open_slot(a, i) ==> self.frozen(frozen)
                    &&& a >= base ==> frozen >= base
                },
                Node::ENode { parent, parentpos, narrow, level, wide, .. } => {
                    &&& !self.retired(a)
                    &&& (a < base || hole == Some((a, i)))
                    &&& parent == a
                    &&& parentpos == i
                    &&& self.is_arr(narrow)
                    &&& self.retired(narrow)
                    &&& self.slots(narrow).len() == NARROW
                    &&& self.path(narrow) == self.child_path(a, i)
                    &&& level == 4 * self.depth(narrow)
                    &&& a >= base ==> narrow >= base
                },
                _ => false,
            }
        }
    }

    /// The node at `a` is in order: a data node keeps the hash of its key, and
    /// an array node lies at most fifteen levels deep and has its slots in order.
    pub open spec fn node_ok(&self, base: usize, hole: Option<(usize, int)>, a: usize) -> bool {
        match self.nodes()[a as int] {
            Node::SNode { hash, key, .. } => hash == K::hash_of(key.id()),
            Node::ANode(_) => {
                &&& self.depth(a) <= 15
                &&& forall|i: int|
                    0 <= i < self.slots(a).len() ==> #[trigger] self.slot_ok(base, hole, a, i)
            },
            _ => true,
        }
    }

    /// No address stands in two slots.
    pub open spec fn inj(&self) -> bool {
        forall|a: usize, i: int, b: usize, j: int|
            #![trigger self.slots(a)[i], self.slots(b)[j]]
            self.is_arr(a) && self.is_arr(b) && 0 <= i < self.slots(a).len() && 0 <= j
                < self.slots(b).len() && self.slots(a)[i] == self.slots(b)[j] && self.slots(a)[i]
                != NULL ==> a == b && i == j
    }

    /// The root is a live wide array node at depth 0.
    pub open spec fn root_ok(&self) -> bool {
        &&& self.is_arr(self.root_spec())
        &&& self.slots(self.root_spec()).len() == WIDE
        &&& self.depth(self.root_spec()) == 0
        &&& !self.retired(self.root_spec())
    }

    /// The state between two transitions of an operation that works at and
    /// above the address `base`, with an expansion in course at `hole`.
    pub open spec fn inv(&self, base: usize, hole: Option<(usize, int)>) -> bool {
        &&& self.typed()
        &&& self.inj()
        &&& self.root_ok()
        &&& forall|a: usize| self.valid(a) ==> #[trigger] self.node_ok(base, hole, a)
    }

    /// The nodes that stood in no slot stand in none.
    pub open spec fn frees(&self, later: &Self) -> bool {
        forall|c: usize| self.valid(c) && #[trigger] self.free(c) ==> later.free(c)
    }

    /// What the state of a slot reads of the node `x` it leads to is as it
    /// was.
    pub open spec fn stable(&self, later: &Self, x: usize) -> bool {
        &&& later.retired(x) == self.retired(x)
        &&& self.frozen(x) ==> later.frozen(x)
        &&& later.nodes()[x as int].txn() == self.nodes()[x as int].txn()
    }

    /// A slot that holds what it held is in order if what it leads to is
    /// stable.
    pub(crate) proof fn lemma_slot_kept(
        s1: &Self,
        s2: &Self,
        base: usize,
        hole1: Option<(usize, int)>,
        hole2: Option<(usize, int)>,
        a: usize,
        j: int,
    )
        requires
            s1.typed(),
            s1.kept(s2),
            s1.is_arr(a),
            0 <= j < s1.slots(a).len(),
            s1.slot_ok(base, hole1, a, j),
            s2.slots(a)[j] == s1.slots(a)[j],
            s2.open_slot(a, j) == s1.open_slot(a, j),
            s2.retired(a) == s1.retired(a),
            hole1 == hole2 || hole1 != Some((a, j)),
            ({
                let c = s1.slots(a)[j];
                c != NULL ==> match s1.nodes()[c as int] {
                    Node::FNode { frozen } => s1.stable(s2, frozen),
                    Node::ENode { narrow, .. } => s1.stable(s2, narrow),
                    _ => s1.stable(s2, c),
                }
            }),
        ensures
            s2.slot_ok(base, hole2, a, j),
    {
        let c = s1.slots(a)[j];
        assert(s1.nodes()[a as int].kept_as(s2.nodes()[a as int]));
        assert(s2.child_path(a, j) == s1.child_path(a, j));
        assert(s1.node_typed(a));
        assert(s1.slot_typed(c));
        if c != NULL {
            assert(s1.nodes()[c as int].kept_as(s2.nodes()[c as int]));
            assert(s1.node_typed(c));
            match s1.nodes()[c as int] {
                Node::SNode { txn, .. } => {
                    assert(s1.nodes()[txn as int].kept_as(s2.nodes()[txn as int]));
                    assert(s2.nodes()[c as int].txn() == txn);
                },
                Node::FNode { frozen } => {
                    assert(s1.nodes()[frozen as int].kept_as(s2.nodes()[frozen as int]));
                },
                Node::ENode { narrow, .. } => {
                    assert(s1.nodes()[narrow as int].kept_as(s2.nodes()[narrow as int]));
                },
                _ => {},
            }
        }
    }

    /// The state is in order after a step that changed one slot, or what
    /// that slot leads to, and left the slot in order.
    pub(crate) proof fn lemma_inv_kept(
        s1: &Self,
        s2: &Self,
        base: usize,
        hole1: Option<(usize, int)>,
        hole2: Option<(usize, int)>,
        a0: usize,
        i0: int,
    )
        requires
            s1.inv(base, hole1),
            s1.kept(s2),
            s2.typed(),
            s2.inj(),
            s1.is_arr(a0),
            0 <= i0 < s1.slots(a0).len(),
            s1.slots_same_but(s2, a0, i0),
            forall|x: usize|
                s1.valid(x) && x != s1.slots(a0)[i0] ==> #[trigger] s1.stable(s2, x),
            forall|a: usize, j: int|
                s1.is_arr(a) && 0 <= j < s1.slots(a).len() && !(a == a0 && j == i0)
                    ==> #[trigger] s2.open_slot(a, j) == s1.open_slot(a, j),
            s2.slot_ok(base, hole2, a0, i0),
            s1.is_arr(s1.slots(a0)[i0]) ==> forall|j: int|
                0 <= j < s1.slots(s1.slots(a0)[i0]).len() ==> #[trigger] s2.slot_ok(
                    base,
                    hole2,
                    s1.slots(a0)[i0],
                    j,
                ),
            hole1 == hole2 || hole1 == Some((a0, i0)) || hole1 is None,
            forall|a: usize| s2.valid(a) && !s1.valid(a) ==> #[trigger] s2.node_ok(base, hole2, a),
        ensures
            s2.inv(base, hole2),
    {
        let x0 = s1.slots(a0)[i0];
        assert(s1.node_ok(base, hole1, a0));
        assert(s1.slot_ok(base, hole1, a0, i0));
        assert(s2.root_ok()) by {
            let r = s1.root_spec();
            assert(s1.nodes()[r as int].kept_as(s2.nodes()[r as int]));
            assert(s1.node_ok(base, hole1, r));
            if r == x0 {
                assert(s1.child_path(a0, i0).len() == s1.path(a0).len() + 1);
                assert(false);
            } else {
                assert(s1.stable(s2, r));
            }
        }
        assert forall|a: usize| s2.valid(a) implies #[trigger] s2.node_ok(base, hole2, a) by {
            if s1.valid(a) {
                assert(s1.node_ok(base, hole1, a));
                assert(s1.nodes()[a as int].kept_as(s2.nodes()[a as int]));
                assert(s1.node_typed(a));
                if s1.nodes()[a as int] is ANode {
                    assert forall|j: int| 0 <= j < s2.slots(a).len() implies #[trigger] s2.slot_ok(
                        base,
                        hole2,
                        a,
                        j,
                    ) by {
                        if a == a0 && j == i0 {
                        } else if a == x0 {
                        } else {
                            assert(s1.slot_ok(base, hole1, a, j));
                            let c = s1.slots(a)[j];
                            assert(s2.slots(a)[j] == c);
                            assert(s1.slot_typed(c));
                            assert(s2.open_slot(a, j) == s1.open_slot(a, j));
                            assert(s1.stable(s2, a));
                            if c != NULL {
                                assert(c != x0);
                                assert(s1.stable(s2, c));
                                assert(s1.node_typed(c));
                                match s1.nodes()[c as int] {
                                    Node::FNode { frozen } => {
                                        assert(s1.retired(frozen));
                                        assert(s1.is_arr(frozen));
                                        if frozen == x0 {
                                            assert(s1.nodes()[x0 as int] is ANode);
                                            assert(!s1.retired(x0));
                                        }
                                        assert(frozen != x0);
                                        assert(s1.stable(s2, frozen));
                                    },
                                    Node::ENode { narrow, .. } => {
                                        assert(s1.retired(narrow));
                                        assert(s1.is_arr(narrow));
                                        if narrow == x0 {
                                            assert(s1.nodes()[x0 as int] is ANode);
                                            assert(!s1.retired(x0));
                                        }
                                        assert(narrow != x0);
                                        assert(s1.stable(s2, narrow));
                                    },
                                    _ => {},
                                }
                            }
                            if hole1 != hole2 && hole1 == Some((a, j)) {
                                assert(false);
                            }
                            Self::lemma_slot_kept(s1, s2, base, hole1, hole2, a, j);
                        }
                    }
                }
            }
        }
    }

    /// One step of an operation: nodes were added, slot `i0` of the array
    /// node `a0` took an address, what it held before changed its `txn` or
    /// left the live trie, and `a0` was frozen one slot further. Nothing
    /// else changed.
    pub open spec fn step(&self, later: &Self, a0: usize, i0: int) -> bool {
        &&& self.changed(later, a0, i0)
        &&& later.slots(a0)[i0] == self.slots(a0)[i0] || later.slots(a0)[i0] == NULL || self.free(
            later.slots(a0)[i0],
        )
    }

    /// As `step`, whatever the slot took.
    pub open spec fn changed(&self, later: &Self, a0: usize, i0: int) -> bool {
        let x0 = self.slots(a0)[i0];
        &&& self.is_arr(a0)
        &&& 0 <= i0 < self.slots(a0).len()
        &&& self.nodes().len() <= later.nodes().len()
        &&& later.metas().len() == later.nodes().len()
        &&& later.root_spec() == self.root_spec()
        &&& later.cache_spec() == self.cache_spec()
        &&& !later.valid(NULL)
        &&& forall|a: int|
            0 <= a < self.nodes().len() && a != a0 && a != x0 ==> #[trigger] later.nodes()[a]
                == self.nodes()[a]
        &&& forall|a: int|
            0 <= a < self.nodes().len() && a != a0 && a != x0 ==> #[trigger] later.metas()[a]
                == self.metas()[a]
        &&& later.is_arr(a0)
        &&& later.slots(a0) == self.slots(a0).update(i0, later.slots(a0)[i0])
        &&& later.path(a0) == self.path(a0)
        &&& later.retired(a0) == self.retired(a0)
        &&& (later.metas()[a0 as int].upto == self.metas()[a0 as int].upto || (
        self.metas()[a0 as int].upto == i0 && later.metas()[a0 as int].upto == i0 + 1))
        &&& later.metas()[a0 as int].upto == self.metas()[a0 as int].upto || later.slots(a0)[i0]
            == self.slots(a0)[i0] || self.slots(a0)[i0] == NULL
        &&& later.slots(a0)[i0] == self.slots(a0)[i0] || later.retired(a0) || !self.wide_arr(x0)
        &&& self.valid(x0) ==> self.nodes()[x0 as int].kept_as(later.nodes()[x0 as int])
            && later.path(x0) == self.path(x0) && later.slots(x0) == self.slots(x0) && (
        later.metas()[x0 as int] == self.metas()[x0 as int] || (later.metas()[x0 as int].upto == 0
            && !self.retired(x0)))
        &&& forall|a: usize, j: int|
            later.is_arr(a) && !self.valid(a) && 0 <= j < later.slots(a).len()
                ==> #[trigger] later.slots(a)[j] == NULL
    }

    /// A step that leaves the changed slot, and the array node that stood
    /// in it, in order leaves the state in order.
    pub(crate) proof fn lemma_step(
        s1: &Self,
        s2: &Self,
        base: usize,
        hole1: Option<(usize, int)>,
        hole2: Option<(usize, int)>,
        a0: usize,
        i0: int,
    )
        requires
            s1.inv(base, hole1),
            s1.step(s2, a0, i0),
            s2.slot_typed(s2.slots(a0)[i0]),
            s1.valid(s1.slots(a0)[i0]) && s1.nodes()[s1.slots(a0)[i0] as int] is SNode
                ==> s2.txn_typed(s1.slots(a0)[i0]),
            s1.valid(s1.slots(a0)[i0]) && s1.nodes()[s1.slots(a0)[i0] as int] is ENode
                ==> s2.nodes()[s1.slots(a0)[i0] as int] == s1.nodes()[s1.slots(a0)[i0] as int]
                || s2.is_arr(s2.nodes()[s1.slots(a0)[i0] as int]->wide),
            forall|a: usize| s2.valid(a) && !s1.valid(a) ==> #[trigger] s2.node_typed(a),
            forall|a: usize| s2.valid(a) && !s1.valid(a) ==> #[trigger] s2.node_ok(base, hole2, a),
            s2.slot_ok(base, hole2, a0, i0),
            s1.is_arr(s1.slots(a0)[i0]) ==> forall|j: int|
                0 <= j < s1.slots(s1.slots(a0)[i0]).len() ==> #[trigger] s2.slot_ok(
                    base,
                    hole2,
                    s1.slots(a0)[i0],
                    j,
                ),
            hole1 == hole2 || hole1 == Some((a0, i0)) || hole1 is None,
        ensures
            s2.inv(base, hole2),
            s1.kept(s2),
            forall|c: usize| s1.free(c) && c != NULL && c != s2.slots(a0)[i0] ==> s2.free(c),
            forall|c: usize| #[trigger] s1.held(c) && c != s1.slots(a0)[i0] ==> s2.held(c),
            s2.held(s2.slots(a0)[i0]),
    {
        let x0 = s1.slots(a0)[i0];
        assert(s1.node_typed(a0));
        assert(s1.slot_typed(x0));
        assert(s1.node_ok(base, hole1, a0));
        assert(s1.slot_ok(base, hole1, a0, i0));
        assert(x0 != a0) by {
            if x0 == a0 {
                assert(s1.child_path(a0, i0).len() == s1.path(a0).len() + 1);
            }
        }
        assert(s1.kept(s2)) by {
            assert forall|a: int| 0 <= a < s1.nodes().len() implies (#[trigger] s1.nodes()[a]).kept_as(
                s2.nodes()[a],
            ) && s1.metas()[a].path == s2.metas()[a].path by {
                if a != a0 && a != x0 {
                    assert(s2.nodes()[a] == s1.nodes()[a]);
                    assert(s2.metas()[a] == s1.metas()[a]);
                }
            }
            assert forall|a: usize| s1.valid(a) && #[trigger] s1.hardened(a) implies s2.hardened(
                a,
            ) by {
                if a != a0 && a != x0 {
                    assert(s2.nodes()[a as int] == s1.nodes()[a as int]);
                    assert(s2.metas()[a as int] == s1.metas()[a as int]);
                }
            }
        }
        assert(s1.slots_same_but(s2, a0, i0)) by {
            assert forall|a: usize, j: int|
                s1.is_arr(a) && 0 <= j < s1.slots(a).len() && !(a == a0 && j == i0)
                implies #[trigger] s2.slots(a)[j] == s1.slots(a)[j] by {
                if a != a0 {
                    if a != x0 {
                        assert(s2.nodes()[a as int] == s1.nodes()[a as int]);
                    }
                }
            }
        }
        assert forall|a: usize|
            s1.valid(a) && s1.nodes()[a as int] is SNode implies s2.nodes()[a as int].txn()
            == s1.nodes()[a as int].txn() || #[trigger] s2.txn_typed(a) by {
            if a != x0 {
                assert(s2.nodes()[a as int] == s1.nodes()[a as int]);
            }
        }
        assert forall|a: usize|
            s1.valid(a) && s1.nodes()[a as int] is ENode implies #[trigger] s2.nodes()[a as int]
            == s1.nodes()[a as int] || s2.is_arr(s2.nodes()[a as int]->wide) by {
            if a != x0 {
                assert(s2.nodes()[a as int] == s1.nodes()[a as int]);
            }
        }
        Self::lemma_typed_after(s1, s2, a0, i0);
        Self::lemma_inj_after(s1, s2, a0, i0);
        assert forall|x: usize| s1.valid(x) && x != x0 implies #[trigger] s1.stable(s2, x) by {
            if x != a0 {
                assert(s2.nodes()[x as int] == s1.nodes()[x as int]);
                assert(s2.metas()[x as int] == s1.metas()[x as int]);
            } else {
                assert(s1.nodes()[x as int].kept_as(s2.nodes()[x as int]));
            }
        }
        assert forall|a: usize, j: int|
            s1.is_arr(a) && 0 <= j < s1.slots(a).len() && !(a == a0 && j == i0)
            implies #[trigger] s2.open_slot(a, j) == s1.open_slot(a, j) by {
            if a != a0 && a != x0 {
                assert(s2.metas()[a as int] == s1.metas()[a as int]);
            } else if a == x0 {
                assert(!s1.retired(x0));
            }
        }
        Self::lemma_inv_kept(s1, s2, base, hole1, hole2, a0, i0);
        Self::lemma_held_step(s1, s2, a0, i0);
    }

    /// Every address that stood in a slot stands in one after a change of
    /// one slot, but perhaps the address that stood in that slot.
    pub proof fn lemma_held_step(s1: &Self, s2: &Self, a0: usize, i0: int)
        requires
            s1.kept(s2),
            s1.is_arr(a0),
            0 <= i0 < s1.slots(a0).len(),
            s1.slots_same_but(s2, a0, i0),
        ensures
            forall|c: usize| #[trigger] s1.held(c) && c != s1.slots(a0)[i0] ==> s2.held(c),
            s2.held(s2.slots(a0)[i0]),
    {
        assert(s1.nodes()[a0 as int].kept_as(s2.nodes()[a0 as int]));
        assert(s2.is_arr(a0) && 0 <= i0 < s2.slots(a0).len());
        assert forall|c: usize| #[trigger] s1.held(c) && c != s1.slots(a0)[i0] implies s2.held(
            c,
        ) by {
            s1.lemma_holder(c);
            let (a, j) = s1.holder(c);
            assert(s1.nodes()[a as int].kept_as(s2.nodes()[a as int]));
            assert(s2.slots(a)[j] == c);
        }
    }

    /// Every address that stood in a slot stands in one after nodes were
    /// added.
    pub proof fn lemma_held_grown(s1: &Self, s2: &Self)
        requires
            s1.kept(s2),
            forall|a: usize| s1.valid(a) ==> #[trigger] s1.same_at(s2, a),
        ensures
            forall|c: usize| #[trigger] s1.held(c) ==> s2.held(c),
    {
        assert forall|c: usize| #[trigger] s1.held(c) implies s2.held(c) by {
            s1.lemma_holder(c);
            let (a, j) = s1.holder(c);
            assert(s1.same_at(s2, a));
            assert(s2.slots(a)[j] == c);
        }
    }

    /// After nodes were added to a settled state, every node but `skip` is
    /// settled if those of the added ones are.
    pub proof fn lemma_settled_but(s1: &Self, s2: &Self, base: usize, top: usize, skip: usize)
        requires
            s1.typed(),
            s1.kept(s2),
            s1.settled(base, top, NULL),
            !s1.valid(skip),
            forall|a: usize| s1.valid(a) ==> #[trigger] s1.same_at(s2, a),
            forall|x: usize|
                s2.valid(x) && !s1.valid(x) && x >= base && x != skip ==> #[trigger] s2.settled_at(
                    x,
                    top,
                    NULL,
                ),
        ensures
            forall|x: usize|
                s2.valid(x) && x >= base && x != skip ==> #[trigger] s2.settled_at(x, top, NULL),
    {
        Self::lemma_held_grown(s1, s2);
        assert forall|x: usize|
            s2.valid(x) && x >= base && x != skip implies #[trigger] s2.settled_at(
            x,
            top,
            NULL,
        ) by {
            if s1.valid(x) {
                assert(s1.settled_at(x, top, NULL));
                assert(s1.same_at(s2, x));
                assert(s1.node_typed(x));
                if s1.nodes()[x as int] is SNode {
                    assert(s1.same_at(s2, s1.nodes()[x as int].txn()));
                }
                if s1.held(x) {
                    assert(s2.held(x));
                }
            }
        }
    }

    /// The state after an operation that worked at and above the newest
    /// array node `w` of a settled state is settled.
    pub proof fn lemma_settled_join(s2: &Self, s3: &Self, base: usize, top: usize, w: usize)
        requires
            s2.typed(),
            s3.typed(),
            s2.kept(s3),
            s2.settled(base, top, w),
            s2.same_below(s3, w),
            s3.settled(w, w, NULL),
            s2.is_arr(w),
            w + 1 == s2.nodes().len(),
            base <= w,
            forall|j: int| 0 <= j < s2.slots(w).len() ==> #[trigger] s2.slots(w)[j] == NULL,
        ensures
            s3.settled(base, top, w),
    {
        assert forall|x: usize| s3.valid(x) && x >= base implies #[trigger] s3.settled_at(
            x,
            top,
            w,
        ) by {
            if x < w {
                assert(s2.settled_at(x, top, w));
                assert(s2.same_at(s3, x));
                assert(s2.node_typed(x));
                if s2.nodes()[x as int] is SNode {
                    let t = s2.nodes()[x as int].txn();
                    assert(s2.nodes()[t as int].kept_as(s3.nodes()[t as int]));
                }
                if s2.held(x) {
                    s2.lemma_holder(x);
                    let (a, j) = s2.holder(x);
                    assert(s2.node_typed(a));
                    assert(s2.slot_typed(x));
                    if a == w {
                        assert(s2.slots(w)[j] == NULL);
                    }
                    assert(s2.same_at(s3, a));
                    assert(s3.slots(a)[j] == x);
                    assert(s3.held(x));
                }
            } else {
                assert(s3.settled_at(x, w, NULL));
            }
        }
    }

    /// A state is settled if it grew from a settled one and what was added
    /// is settled.
    pub proof fn lemma_settled_grown(
        s1: &Self,
        s2: &Self,
        base: usize,
        top: usize,
        spare1: usize,
        spare2: usize,
    )
        requires
            s1.typed(),
            s1.kept(s2),
            s1.settled(base, top, spare1),
            spare1 == spare2 || !s1.valid(spare1) || s2.settled_at(spare1, top, spare2),
            forall|a: usize| s1.valid(a) ==> #[trigger] s1.same_at(s2, a),
            forall|x: usize|
                s2.valid(x) && !s1.valid(x) && x >= base ==> #[trigger] s2.settled_at(
                    x,
                    top,
                    spare2,
                ),
        ensures
            s2.settled(base, top, spare2),
    {
        Self::lemma_held_grown(s1, s2);
        assert forall|x: usize| s2.valid(x) && x >= base implies #[trigger] s2.settled_at(
            x,
            top,
            spare2,
        ) by {
            if s1.valid(x) {
                assert(s1.settled_at(x, top, spare1));
                assert(s1.same_at(s2, x));
                assert(s1.node_typed(x));
                if s1.nodes()[x as int] is SNode {
                    assert(s1.same_at(s2, s1.nodes()[x as int].txn()));
                }
                if s1.held(x) {
                    assert(s2.held(x));
                }
            }
        }
    }

    /// No address stands in two slots after a slot took an address that
    /// stood in none.
    pub(crate) proof fn lemma_inj_after(s1: &Self, s2: &Self, a0: usize, i0: int)
        requires
            s1.typed(),
            s1.inj(),
            s1.kept(s2),
            s1.is_arr(a0),
            0 <= i0 < s1.slots(a0).len(),
            s1.slots_same_but(s2, a0, i0),
            forall|a: usize, j: int|
                s2.is_arr(a) && !s1.valid(a) && 0 <= j < s2.slots(a).len() ==> #[trigger] s2.slots(
                    a,
                )[j] == NULL,
            s2.slots(a0)[i0] == s1.slots(a0)[i0] || s2.slots(a0)[i0] == NULL || s1.free(
                s2.slots(a0)[i0],
            ),
        ensures
            s2.inj(),
            forall|c: usize| s1.free(c) && c != NULL && c != s2.slots(a0)[i0] ==> s2.free(c),
    {
        assert forall|a: usize, i: int, b: usize, j: int|
            #![trigger s2.slots(a)[i], s2.slots(b)[j]]
            s2.is_arr(a) && s2.is_arr(b) && 0 <= i < s2.slots(a).len() && 0 <= j < s2.slots(
                b,
            ).len() && s2.slots(a)[i] == s2.slots(b)[j] && s2.slots(a)[i] != NULL implies a == b
            && i == j by {
            if s1.valid(a) && s1.valid(b) {
                assert(s1.nodes()[a as int].kept_as(s2.nodes()[a as int]));
                assert(s1.nodes()[b as int].kept_as(s2.nodes()[b as int]));
                if !(a == a0 && i == i0) && !(b == a0 && j == i0) {
                    assert(s2.slots(a)[i] == s1.slots(a)[i]);
                    assert(s2.slots(b)[j] == s1.slots(b)[j]);
                } else if a == a0 && i == i0 && !(b == a0 && j == i0) {
                    assert(s2.slots(b)[j] == s1.slots(b)[j]);
                } else if b == a0 && j == i0 && !(a == a0 && i == i0) {
                    assert(s2.slots(a)[i] == s1.slots(a)[i]);
                }
            } else if s1.valid(a) {
                assert(s2.slots(b)[j] == NULL);
            } else {
                assert(s2.slots(a)[i] == NULL);
            }
        }
        assert forall|c: usize| s1.free(c) && c != NULL && c != s2.slots(a0)[i0] implies s2.free(
            c,
        ) by {
            assert forall|a: usize, j: int|
                s2.is_arr(a) && 0 <= j < s2.slots(a).len() implies #[trigger] s2.slots(a)[j]
                != c by {
                if s1.valid(a) {
                    assert(s1.nodes()[a as int].kept_as(s2.nodes()[a as int]));
                    if !(a == a0 && j == i0) {
                        assert(s2.slots(a)[j] == s1.slots(a)[j]);
                    }
                } else {
                    assert(s2.slots(a)[j] == NULL);
                }
            }
        }
    }

    /// An address that is no node's stands in no slot.
    pub proof fn lemma_fresh_free(s: &Self, c: usize)
        requires
            s.typed(),
            !s.valid(c),
            c != NULL,
        ensures
            s.free(c),
    {
        assert forall|a: usize, j: int| s.is_arr(a) && 0 <= j < s.slots(a).len() implies #[trigger] s.slots(
            a,
        )[j] != c by {
            assert(s.node_typed(a));
            assert(s.slot_typed(s.slots(a)[j]));
        }
    }

    /// `frees` carries over two steps.
    pub proof fn lemma_frees_trans(s1: &Self, s2: &Self, s3: &Self)
        requires
            s1.kept(s2),
            s1.frees(s2),
            s2.frees(s3),
        ensures
            s1.frees(s3),
    {
        assert forall|c: usize| s1.valid(c) && #[trigger] s1.free(c) implies s3.free(c) by {
            assert(s2.free(c));
        }
    }

    /// A step that put a new node, or none, into its slot left the nodes
    /// that stood in no slot in none.
    pub proof fn lemma_frees_step(s1: &Self, s2: &Self, a0: usize, i0: int)
        requires
            s1.typed(),
            s1.is_arr(a0),
            0 <= i0 < s1.slots(a0).len(),
            forall|c: usize| s1.free(c) && c != NULL && c != s2.slots(a0)[i0] ==> s2.free(c),
            s2.slots(a0)[i0] == s1.slots(a0)[i0] || s2.slots(a0)[i0] == NULL || !s1.valid(
                s2.slots(a0)[i0],
            ),
        ensures
            s1.frees(s2),
    {
        assert forall|c: usize| s1.valid(c) && #[trigger] s1.free(c) implies s2.free(c) by {
            if c == s1.slots(a0)[i0] {
                assert(s1.slots(a0)[i0] != c);
            }
        }
    }

    /// The slots of an array node that has just left the live trie are in
    /// order.
    pub(crate) proof fn lemma_slot_retired(
        s1: &Self,
        s2: &Self,
        base: usize,
        hole1: Option<(usize, int)>,
        hole: Option<(usize, int)>,
        c: usize,
        j: int,
    )
        requires
            s1.typed(),
            s1.kept(s2),
            s1.is_arr(c),
            0 <= j < s1.slots(c).len(),
            !s1.retired(c),
            c >= base,
            hole1 is Some ==> hole1->Some_0.0 != c,
            s1.slot_ok(base, hole1, c, j),
            s2.slots(c) == s1.slots(c),
            s2.metas()[c as int] == (Meta { retired: true, upto: 0, ..s1.metas()[c as int] }),
            forall|a: int|
                0 <= a < s1.nodes().len() && a != c ==> #[trigger] s2.metas()[a]
                    == s1.metas()[a],
            forall|a: int|
                0 <= a < s1.nodes().len() && !(s1.nodes()[a] is ANode) ==> #[trigger] s2.nodes()[a]
                    == s1.nodes()[a],
        ensures
            s2.slot_ok(base, hole, c, j),
    {
        let x = s1.slots(c)[j];
        assert(s1.nodes()[c as int].kept_as(s2.nodes()[c as int]));
        assert(s2.child_path(c, j) == s1.child_path(c, j));
        assert(s1.node_typed(c));
        assert(s1.slot_typed(x));
        if x != NULL {
            assert(s1.nodes()[x as int].kept_as(s2.nodes()[x as int]));
            assert(s1.node_typed(x));
            assert(x != c) by {
                if x == c {
                    assert(s1.child_path(c, j).len() == s1.path(c).len() + 1);
                }
            }
            match s1.nodes()[x as int] {
                Node::SNode { txn, .. } => {
                    assert(s2.nodes()[x as int] == s1.nodes()[x as int]);
                    assert(s1.nodes()[txn as int].kept_as(s2.nodes()[txn as int]));
                },
                _ => {},
            }
        }
    }

    /// No slot holds the address `c`.
    pub open spec fn free(&self, c: usize) -> bool {
        forall|a: usize, j: int|
            self.is_arr(a) && 0 <= j < self.slots(a).len() ==> #[trigger] self.slots(a)[j] != c
    }

    /// A data node that nothing has replaced or frozen, not yet in the arena.
    pub open spec fn fresh_data(&self, n: Node<K, V>) -> bool {
        n matches Node::SNode { hash, key, txn, .. } && hash == K::hash_of(key.id()) && self.valid(
            txn,
        ) && self.nodes()[txn as int] is NoTxn
    }

    /// The state after a node that is no array node was added.
    pub(crate) proof fn lemma_alloc_plain(
        s1: &Self,
        s2: &Self,
        base: usize,
        hole: Option<(usize, int)>,
        n: usize,
    )
        requires
            s1.inv(base, hole),
            s1.grown_by(s2, n),
            !s2.valid(NULL),
            !(s2.nodes()[n as int] is ANode),
            s2.node_typed(n),
            s2.node_ok(base, hole, n),
        ensures
            s2.inv(base, hole),
            s1.kept(s2),
            s1.same_lookups(s2),
            s1.same_below(s2, n),
            s2.free(n),
            forall|c: usize| s1.free(c) ==> s2.free(c),
    {
        Self::lemma_grown(s1, s2, base, hole, n);
        assert forall|a: usize, j: int| s2.is_arr(a) && 0 <= j < s2.slots(a).len() implies (
        #[trigger] s2.slots(a)[j]) == s1.slots(a)[j] && s1.is_arr(a) by {}
        assert(s2.inj());
        assert forall|a: usize| s2.valid(a) implies #[trigger] s2.node_ok(base, hole, a) by {
            if a != n {
                assert(s1.node_ok(base, hole, a));
                if s1.nodes()[a as int] is ANode {
                    assert forall|j: int| 0 <= j < s2.slots(a).len() implies #[trigger] s2.slot_ok(
                        base,
                        hole,
                        a,
                        j,
                    ) by {
                        Self::lemma_slot_grown(s1, s2, base, hole, n, a, j);
                    }
                }
            }
        }
        assert(s2.free(n)) by {
            assert forall|a: usize, j: int|
                s2.is_arr(a) && 0 <= j < s2.slots(a).len() implies #[trigger] s2.slots(a)[j]
                != n by {
                assert(s1.node_typed(a));
                assert(s1.slot_typed(s1.slots(a)[j]));
            }
        }
        assert forall|c: usize| s1.free(c) implies s2.free(c) by {
            assert forall|a: usize, j: int|
                s2.is_arr(a) && 0 <= j < s2.slots(a).len() implies #[trigger] s2.slots(a)[j]
                != c by {
                assert(s1.slots(a)[j] != c);
            }
        }
    }

    /// What holds after any node was added: the nodes that were there
    /// conform as before, and descents from them find what they found.
    pub(crate) proof fn lemma_grown(s1: &Self, s2: &Self, base: usize, hole: Option<(usize, int)>, n: usize)
        requires
            s1.inv(base, hole),
            s1.grown_by(s2, n),
            !s2.valid(NULL),
            s2.node_typed(n),
        ensures
            s2.typed(),
            s2.root_ok(),
            s1.kept(s2),
            s1.same_lookups(s2),
            s1.same_below(s2, n),
    {
        assert forall|a: usize, j: int|
            s1.is_arr(a) && 0 <= j < s1.slots(a).len() implies #[trigger] s2.slots(a)[j]
            == s1.slots(a)[j] by {
            assert(s2.nodes()[a as int] == s1.nodes()[a as int]);
        }
        assert(s1.kept(s2)) by {
            assert forall|a: int| 0 <= a < s1.nodes().len() implies (#[trigger] s1.nodes()[a]).kept_as(
                s2.nodes()[a],
            ) && s1.metas()[a].path == s2.metas()[a].path by {
                assert(s2.nodes()[a] == s1.nodes()[a]);
            }
            assert forall|a: usize| s1.valid(a) && #[trigger] s1.hardened(a) implies s2.hardened(
                a,
            ) by {
                assert(s2.nodes()[a as int] == s1.nodes()[a as int]);
            }
            assert forall|a: usize|
                s1.valid(a) && #[trigger] s1.metas()[a as int].retired implies s2.metas()[a as int].retired by {
                assert(s2.nodes()[a as int] == s1.nodes()[a as int]);
                assert(s2.metas()[a as int] == s1.metas()[a as int]);
            }
            assert forall|a: usize, i: int|
                #![trigger s1.slots(a)[i]]
                s1.is_arr(a) && 0 <= i < s1.slots(a).len() implies s2.slots(a)[i] == s1.slots(a)[i] by {
                assert(s2.nodes()[a as int] == s1.nodes()[a as int]);
            }
        }
        assert(s1.slots_same_but(s2, n, 0));
        assert forall|a: usize| s1.valid(a) implies #[trigger] s2.nodes()[a as int]
            == s1.nodes()[a as int] by {}
        Self::lemma_typed_after(s1, s2, n, 0);
        Self::lemma_sim_all(s1, s2);
        assert forall|a: usize| s1.valid(a) && a < n implies #[trigger] s1.same_at(s2, a) by {
            assert(s2.nodes()[a as int] == s1.nodes()[a as int]);
        }
        let r = s1.root_spec();
        assert(s2.nodes()[r as int] == s1.nodes()[r as int]);
        assert(s2.metas()[r as int] == s1.metas()[r as int]);
    }

    /// A slot of a node that was there is in order after a node was added.
    pub(crate) proof fn lemma_slot_grown(
        s1: &Self,
        s2: &Self,
        base: usize,
        hole: Option<(usize, int)>,
        n: usize,
        a: usize,
        j: int,
    )
        requires
            s1.inv(base, hole),
            s1.grown_by(s2, n),
            s1.is_arr(a),
            0 <= j < s1.slots(a).len(),
        ensures
            s2.slot_ok(base, hole, a, j),
    {
        assert(s1.node_ok(base, hole, a));
        assert(s1.slot_ok(base, hole, a, j));
        assert(s2.nodes()[a as int] == s1.nodes()[a as int]);
        assert(s2.metas()[a as int] == s1.metas()[a as int]);
        let c = s1.slots(a)[j];
        assert(s1.node_typed(a));
        assert(s1.slot_typed(c));
        if c != NULL {
            assert(s2.nodes()[c as int] == s1.nodes()[c as int]);
            assert(s2.metas()[c as int] == s1.metas()[c as int]);
            assert(s1.node_typed(c));
            match s1.nodes()[c as int] {
                Node::SNode { txn, .. } => {
                    assert(s2.nodes()[txn as int] == s1.nodes()[txn as int]);
                },
                Node::FNode { frozen } => {
                    assert(s2.nodes()[frozen as int] == s1.nodes()[frozen as int]);
                    assert(s2.metas()[frozen as int] == s1.metas()[frozen as int]);
                },
                Node::ENode { narrow, .. } => {
                    assert(s2.nodes()[narrow as int] == s1.nodes()[narrow as int]);
                    assert(s2.metas()[narrow as int] == s1.metas()[narrow as int]);
                },
                _ => {},
            }
        }
    }

    /// The state after an array node was added whose slots hold nothing but
    /// addresses that no slot held.
    pub(crate) proof fn lemma_alloc_arr(
        s1: &Self,
        s2: &Self,
        base: usize,
        hole: Option<(usize, int)>,
        n: usize,
    )
        requires
            s1.inv(base, hole),
            s1.grown_by(s2, n),
            !s2.valid(NULL),
            s2.nodes()[n as int] is ANode,
            s2.node_typed(n),
            s2.node_ok(base, hole, n),
            forall|j: int|
                0 <= j < s2.slots(n).len() && s2.slots(n)[j] != NULL ==> s1.free(
                    #[trigger] s2.slots(n)[j],
                ),
            forall|i: int, j: int|
                0 <= i < s2.slots(n).len() && 0 <= j < s2.slots(n).len() && i != j && s2.slots(
                    n,
                )[i] != NULL ==> #[trigger] s2.slots(n)[i] != #[trigger] s2.slots(n)[j],
        ensures
            s2.inv(base, hole),
            s1.kept(s2),
            s1.same_lookups(s2),
            s1.same_below(s2, n),
            s2.free(n),
            forall|c: usize|
                s1.free(c) && (forall|j: int|
                    0 <= j < s2.slots(n).len() ==> #[trigger] s2.slots(n)[j] != c) ==> s2.free(c),
    {
        Self::lemma_grown(s1, s2, base, hole, n);
        assert forall|a: usize, j: int|
            s1.is_arr(a) && 0 <= j < s1.slots(a).len() implies #[trigger] s2.slots(a)[j]
            == s1.slots(a)[j] by {
            assert(s2.nodes()[a as int] == s1.nodes()[a as int]);
        }
        assert forall|c: usize|
            s1.free(c) && (forall|j: int|
                0 <= j < s2.slots(n).len() ==> #[trigger] s2.slots(n)[j] != c) implies s2.free(
            c,
        ) by {
            assert forall|a: usize, j: int|
                s2.is_arr(a) && 0 <= j < s2.slots(a).len() implies #[trigger] s2.slots(a)[j]
                != c by {
                if a != n {
                    assert(s1.slots(a)[j] != c);
                }
            }
        }
        assert(s2.inj()) by {
            assert forall|a: usize, i: int, b: usize, j: int|
                #![trigger s2.slots(a)[i], s2.slots(b)[j]]
                s2.is_arr(a) && s2.is_arr(b) && 0 <= i < s2.slots(a).len() && 0 <= j < s2.slots(
                    b,
                ).len() && s2.slots(a)[i] == s2.slots(b)[j] && s2.slots(a)[i] != NULL implies a
                == b && i == j by {
                if a != n && b != n {
                    assert(s2.slots(a)[i] == s1.slots(a)[i]);
                    assert(s2.slots(b)[j] == s1.slots(b)[j]);
                } else if a == n && b != n {
                    assert(s1.free(s2.slots(n)[i]));
                    assert(s1.slots(b)[j] != s2.slots(n)[i]);
                } else if b == n && a != n {
                    assert(s1.free(s2.slots(n)[j]));
                    assert(s1.slots(a)[i] != s2.slots(n)[j]);
                } else {
                }
            }
        }
        assert forall|a: usize| s2.valid(a) implies #[trigger] s2.node_ok(base, hole, a) by {
            if a != n {
                assert(s1.node_ok(base, hole, a));
                if s1.nodes()[a as int] is ANode {
                    assert forall|j: int| 0 <= j < s2.slots(a).len() implies #[trigger] s2.slot_ok(
                        base,
                        hole,
                        a,
                        j,
                    ) by {
                        Self::lemma_slot_grown(s1, s2, base, hole, n, a, j);
                    }
                }
            }
        }
        assert(s2.free(n)) by {
            assert forall|a: usize, j: int|
                s2.is_arr(a) && 0 <= j < s2.slots(a).len() implies #[trigger] s2.slots(a)[j]
                != n by {
                if a != n {
                    assert(s1.node_typed(a));
                    assert(s1.slot_typed(s1.slots(a)[j]));
                } else {
                    assert(s2.slot_typed(s2.slots(n)[j]));
                    if s2.slots(n)[j] == n {
                        assert(s1.free(n));
                        assert(s2.slot_ok(base, hole, n, j));
                        assert(s2.child_path(n, j).len() == s2.path(n).len() + 1);
                    }
                }
            }
        }
    }

    /// The hash of a key found from the array node `x` follows the path
    /// to `x`.
    pub proof fn lemma_found_on_path(
        &self,
        base: usize,
        hole: Option<(usize, int)>,
        x: usize,
        id: K::Id,
    )
        requires
            self.inv(base, hole),
            self.holds(x, id),
        ensures
            on_path(K::hash_of(id), self.path(x)),
            0 <= self.slot_for(x, id) < self.slots(x).len(),
            self.lookup_from(x, id) == self.follow(
                self.resolve(x, self.slots(x)[self.slot_for(x, id)]),
                self.depth(x),
                id,
            ),
        decreases 16 - self.depth(x),
    {
        let i = self.slot_for(x, id);
        let c = self.slots(x)[i];
        assert(self.node_ok(base, hole, x));
        assert(self.node_typed(x));
        assert(self.slot_ok(base, hole, x, i));
        assert(self.slot_typed(c));
        let h = K::hash_of(id);
        assert(c != NULL);
        assert(self.node_typed(c));
        assert(self.node_ok(base, hole, c));
        match self.nodes()[c as int] {
            Node::SNode { hash, key, .. } => {
                assert(key.id() == id);
                self.lemma_on_child_path(h, x, i);
            },
            _ => {
                let t = self.resolve(x, c);
                match t {
                    Target::Down(y) => {
                        assert(self.path(y) == self.child_path(x, i));
                        self.lemma_found_on_path(base, hole, y, id);
                        self.lemma_on_child_path(h, x, i);
                    },
                    _ => {},
                }
            },
        }
    }

    /// A key found from what stands in slot `i` of the array node `x` is
    /// found from `x`, and is the same find.
    pub proof fn lemma_found_up(
        &self,
        base: usize,
        hole: Option<(usize, int)>,
        x: usize,
        i: int,
        y: usize,
        id: K::Id,
    )
        requires
            self.inv(base, hole),
            self.is_arr(x),
            0 <= i < self.slots(x).len(),
            self.resolve(x, self.slots(x)[i]) == Target::<K::Id, V>::Down(y),
            self.holds(y, id),
        ensures
            self.slot_for(x, id) == i,
            self.lookup_from(x, id) == self.lookup_from(y, id),
    {
        let c = self.slots(x)[i];
        assert(self.node_ok(base, hole, x));
        assert(self.node_typed(x));
        assert(self.slot_ok(base, hole, x, i));
        assert(self.slot_typed(c));
        self.lemma_found_on_path(base, hole, y, id);
        assert(self.path(y) == self.child_path(x, i));
        self.lemma_on_child_path(K::hash_of(id), x, i);
    }

    /// Descents from below the address `w` find what they found if nothing
    /// below `w` changed and the nodes below `w` refer to nothing else.
    pub proof fn lemma_below(s1: &Self, s2: &Self, w: usize, x: usize, id: K::Id)
        requires
            s1.typed(),
            s1.kept(s2),
            s1.same_below(s2, w),
            s1.closed_below(w),
            s1.is_arr(x),
            x < w,
        ensures
            s2.lookup_from(x, id) == s1.lookup_from(x, id),
        decreases 16 - s1.depth(x),
    {
        assert(s1.same_at(s2, x));
        assert(s1.closed_at(x, w));
        assert(s2.nodes()[x as int] == s1.nodes()[x as int]);
        assert(s2.metas()[x as int] == s1.metas()[x as int]);
        let i = s1.slot_for(x, id);
        if s1.depth(x) <= 15 && 0 <= i < s1.slots(x).len() {
            let c = s1.slots(x)[i];
            assert(s1.node_typed(x));
            assert(s1.slot_typed(c));
            if c != NULL {
                assert(c < w);
                assert(s1.closed_at(c, w));
                assert(s1.same_at(s2, c));
                assert(s2.nodes()[c as int] == s1.nodes()[c as int]);
                assert(s2.metas()[c as int] == s1.metas()[c as int]);
                assert(s1.node_typed(c));
                let t = s1.resolve(x, c);
                match t {
                    Target::Down(y) => {
                        assert(y < w);
                        assert(s1.same_at(s2, y));
                        assert(s2.nodes()[y as int] == s1.nodes()[y as int]);
                        assert(s2.metas()[y as int] == s1.metas()[y as int]);
                        assert(s2.resolve(x, c) == t);
                        if s1.depth(y) == s1.depth(x) + 1 && s1.depth(x) < 15 {
                            Self::lemma_below(s1, s2, w, y, id);
                        }
                    },
                    _ => {
                        match s1.nodes()[c as int] {
                            Node::FNode { frozen } => {
                                assert(s1.same_at(s2, frozen));
                                assert(s2.nodes()[frozen as int] == s1.nodes()[frozen as int]);
                                assert(s2.metas()[frozen as int] == s1.metas()[frozen as int]);
                            },
                            Node::ENode { narrow, .. } => {
                                assert(s1.same_at(s2, narrow));
                                assert(s2.nodes()[narrow as int] == s1.nodes()[narrow as int]);
                                assert(s2.metas()[narrow as int] == s1.metas()[narrow as int]);
                            },
                            _ => {},
                        }
                        assert(s2.resolve(x, c) == t);
                    },
                }
            }
        }
    }

    /// The state in which an operation works at and above `base`, with an
    /// expansion in course, is one in which an operation works at and above
    /// the newest node `w`, an array node that holds nothing.
    pub(crate) proof fn lemma_rebase_up(&self, base: usize, hole: Option<(usize, int)>, w: usize)
        requires
            self.inv(base, hole),
            self.is_arr(w),
            w + 1 == self.nodes().len(),
            self.free(w),
            forall|j: int| 0 <= j < self.slots(w).len() ==> #[trigger] self.slots(w)[j] == NULL,
        ensures
            self.inv(w, None),
            self.closed_below(w),
    {
        assert forall|a: usize| self.valid(a) implies #[trigger] self.node_ok(w, None, a) by {
            assert(self.node_ok(base, hole, a));
            if self.nodes()[a as int] is ANode {
                assert forall|j: int| 0 <= j < self.slots(a).len() implies #[trigger] self.slot_ok(
                    w,
                    None,
                    a,
                    j,
                ) by {
                    assert(self.slot_ok(base, hole, a, j));
                    if a == w {
                        assert(self.slots(w)[j] == NULL);
                    }
                }
            }
        }
        assert forall|a: usize| self.valid(a) && a < w implies #[trigger] self.closed_at(a, w) by {
            assert(self.node_typed(a));
            match self.nodes()[a as int] {
                Node::ANode(_) => {
                    assert forall|j: int| 0 <= j < self.slots(a).len() implies #[trigger] self.slots(
                        a,
                    )[j] == NULL || self.slots(a)[j] < w by {
                        assert(self.slot_typed(self.slots(a)[j]));
                        assert(self.slots(a)[j] != w);
                    }
                },
                _ => {},
            }
        }
    }

    /// Back from the state in which an operation worked at and above the
    /// array node `w` to the one in which the operation that made `w` works.
    pub(crate) proof fn lemma_rebase_down(
        s0: &Self,
        s1: &Self,
        base: usize,
        hole: Option<(usize, int)>,
        w: usize,
    )
        requires
            s0.inv(base, hole),
            s0.is_arr(w),
            w + 1 == s0.nodes().len(),
            s0.free(w),
            !s0.retired(w),
            base <= w,
            s1.inv(w, None),
            s0.kept(s1),
            s0.same_below(s1, w),
        ensures
            s1.inv(base, hole),
    {
        assert forall|a: usize| s1.valid(a) implies #[trigger] s1.node_ok(base, hole, a) by {
            assert(s1.node_ok(w, None, a));
            if s1.nodes()[a as int] is ANode {
                assert forall|j: int| 0 <= j < s1.slots(a).len() implies #[trigger] s1.slot_ok(
                    base,
                    hole,
                    a,
                    j,
                ) by {
                    assert(s1.slot_ok(w, None, a, j));
                    if a < w {
                        assert(s0.same_at(s1, a));
                        assert(s1.nodes()[a as int] == s0.nodes()[a as int]);
                        assert(s1.metas()[a as int] == s0.metas()[a as int]);
                        assert(s0.node_ok(base, hole, a));
                        assert(s0.slot_ok(base, hole, a, j));
                        assert(s0.node_typed(a));
                        let c = s0.slots(a)[j];
                        assert(s0.slot_typed(c));
                        if c != NULL {
                            assert(c != w);
                            assert(s0.same_at(s1, c));
                            assert(s1.nodes()[c as int] == s0.nodes()[c as int]);
                            assert(s1.metas()[c as int] == s0.metas()[c as int]);
                            assert(s0.node_typed(c));
                            match s0.nodes()[c as int] {
                                Node::SNode { txn, .. } => {
                                    assert(s0.nodes()[txn as int].kept_as(s1.nodes()[txn as int]));
                                },
                                Node::FNode { frozen } => {
                                    assert(s0.same_at(s1, frozen));
                                    assert(s1.nodes()[frozen as int] == s0.nodes()[frozen as int]);
                                    assert(s1.metas()[frozen as int] == s0.metas()[frozen as int]);
                                },
                                Node::ENode { narrow, .. } => {
                                    assert(s0.same_at(s1, narrow));
                                    assert(s1.nodes()[narrow as int] == s0.nodes()[narrow as int]);
                                    assert(s1.metas()[narrow as int] == s0.metas()[narrow as int]);
                                },
                                _ => {},
                            }
                        }
                    }
                }
            }
        }
    }

    /// The nodes below `w` refer to nodes below `w` only if they did and
    /// are as they were.
    pub proof fn lemma_closed_kept(s1: &Self, s2: &Self, w: usize)
        requires
            s1.kept(s2),
            s1.same_below(s2, w),
            s1.closed_below(w),
            w <= s1.nodes().len(),
        ensures
            s2.closed_below(w),
    {
        assert forall|a: usize| s2.valid(a) && a < w implies #[trigger] s2.closed_at(a, w) by {
            assert(s1.same_at(s2, a));
            assert(s1.closed_at(a, w));
            assert(s2.slots(a) == s1.slots(a));
        }
    }

    /// The node at `x` is a data node that nothing has replaced or frozen.
    pub open spec fn live_data(&self, x: usize) -> bool {
        self.valid(x) && self.nodes()[x as int] is SNode && self.valid(
            self.nodes()[x as int].txn(),
        ) && self.nodes()[self.nodes()[x as int].txn() as int] is NoTxn
    }

    /// The node at `x` is an array node of the live trie.
    pub open spec fn live_arr(&self, x: usize) -> bool {
        self.is_arr(x) && !self.retired(x)
    }

    /// Some slot holds the address `x`.
    pub open spec fn held(&self, x: usize) -> bool {
        !self.free(x)
    }

    /// At and above `base` nothing is left over: every data node that
    /// nothing has replaced or frozen stands in a slot, so does every live
    /// array node but `top` and `spare`, and every array node that has left
    /// the live trie, but `spare`, is frozen.
    pub open spec fn settled(&self, base: usize, top: usize, spare: usize) -> bool {
        forall|x: usize| self.valid(x) && x >= base ==> #[trigger] self.settled_at(x, top, spare)
    }

    /// The node at `x` is settled: see `settled`.
    pub open spec fn settled_at(&self, x: usize, top: usize, spare: usize) -> bool {
        self.freezing_at(x, top, 0, spare, NULL)
    }

    /// The state while array nodes are being frozen: as settled, but an
    /// array node that has left the live trie need not be frozen if it is
    /// `e1` or `e2` or lies above the depth `d`.
    pub open spec fn freezing(&self, base: usize, top: usize, d: int, e1: usize, e2: usize) -> bool {
        forall|x: usize|
            self.valid(x) && x >= base ==> #[trigger] self.freezing_at(x, top, d, e1, e2)
    }

    /// The node at `x` is settled in the sense of `freezing`.
    pub open spec fn freezing_at(&self, x: usize, top: usize, d: int, e1: usize, e2: usize) -> bool {
        &&& self.live_data(x) ==> self.held(x)
        &&& self.live_arr(x) && x != top && x != e1 ==> self.held(x)
        &&& self.is_arr(x) && self.retired(x) && self.depth(x) >= d && x != e1 && x != e2
            ==> self.frozen(x)
    }

    /// The array node `c` has just left the live trie: none of its slots
    /// has been frozen.
    pub open spec fn fresh(&self, c: usize) -> bool {
        &&& self.is_arr(c)
        &&& self.retired(c)
        &&& self.metas()[c as int].upto == 0
        &&& forall|j: int| 0 <= j < self.slots(c).len() ==> self.plain(#[trigger] self.slots(c)[j])
    }

    /// The address `c` is none or that of a data or array node.
    pub open spec fn plain(&self, c: usize) -> bool {
        c == NULL || (self.valid(c) && (self.nodes()[c as int] is SNode
            || self.nodes()[c as int] is ANode))
    }

    /// The state is settled, in the sense of `freezing`, after a step that
    /// left the nodes it touched settled.
    pub proof fn lemma_freezing_step(
        s1: &Self,
        s2: &Self,
        base: usize,
        top: usize,
        d: int,
        e1: usize,
        e2: usize,
        f1: usize,
        f2: usize,
        a0: usize,
        i0: int,
    )
        requires
            s1.typed(),
            s1.kept(s2),
            s1.step(s2, a0, i0),
            s1.freezing(base, top, d, e1, e2),
            forall|c: usize| #[trigger] s1.held(c) && c != s1.slots(a0)[i0] ==> s2.held(c),
            s2.freezing_at(a0, top, d, f1, f2),
            s1.valid(s1.slots(a0)[i0]) ==> s2.freezing_at(s1.slots(a0)[i0], top, d, f1, f2),
            forall|x: usize|
                s2.valid(x) && !s1.valid(x) && x >= base ==> #[trigger] s2.freezing_at(
                    x,
                    top,
                    d,
                    f1,
                    f2,
                ),
            s1.valid(e1) ==> s2.freezing_at(e1, top, d, f1, f2),
            s1.valid(e2) ==> s2.freezing_at(e2, top, d, f1, f2),
        ensures
            s2.freezing(base, top, d, f1, f2),
    {
        let x0 = s1.slots(a0)[i0];
        assert forall|x: usize| s2.valid(x) && x >= base implies #[trigger] s2.freezing_at(
            x,
            top,
            d,
            f1,
            f2,
        ) by {
            if s1.valid(x) && x != a0 && x != x0 && x != e1 && x != e2 {
                assert(s1.freezing_at(x, top, d, e1, e2));
                assert(s2.nodes()[x as int] == s1.nodes()[x as int]);
                assert(s2.metas()[x as int] == s1.metas()[x as int]);
                assert(s1.node_typed(x));
                if s1.nodes()[x as int] is SNode {
                    let t = s1.nodes()[x as int].txn();
                    assert(s1.nodes()[t as int].kept_as(s2.nodes()[t as int]));
                }
                if s1.held(x) {
                    assert(s2.held(x));
                }
            }
        }
    }

    /// A slot that holds `x`, where one does.
    pub open spec fn holder(&self, x: usize) -> (usize, int) {
        choose|a: usize, j: int|
            self.is_arr(a) && 0 <= j < self.slots(a).len() && #[trigger] self.slots(a)[j] == x
    }

    /// An address that stands in a slot stands in the slot `holder` names.
    pub proof fn lemma_holder(&self, x: usize)
        requires
            self.held(x),
        ensures
            self.is_arr(self.holder(x).0),
            0 <= self.holder(x).1 < self.slots(self.holder(x).0).len(),
            self.slots(self.holder(x).0)[self.holder(x).1] == x,
    {
        assert(exists|a: usize, j: int|
            self.is_arr(a) && 0 <= j < self.slots(a).len() && #[trigger] self.slots(a)[j] == x);
    }

    /// A run of wide array nodes from an array node of the live trie stays
    /// what it is.
    pub proof fn lemma_run_kept(
        s1: &Self,
        s2: &Self,
        base: usize,
        hole: Option<(usize, int)>,
        x: usize,
        h: u64,
        j: int,
    )
        requires
            s1.run_from(x, h, j),
            s1.kept(s2),
            s2.inv(base, hole),
            !s2.retired(x),
        ensures
            s2.run_from(x, h, j),
        decreases 16 - s1.depth(x),
    {
        let d = s1.depth(x);
        assert(s1.nodes()[x as int].kept_as(s2.nodes()[x as int]));
        assert(s2.depth(x) == d);
        if d < j {
            let c = s1.next(x, h);
            let i = slot_index(h, 4 * d, WIDE as int);
            Self::lemma_low_of_slot(h, 4 * d, WIDE as int);
            assert(s1.run_from(c, h, j));
            assert(s1.wide_arr(c));
            assert(s1.slots(x)[i] == c);
            assert(s2.slots(x)[i] == c);
            assert(s1.nodes()[c as int].kept_as(s2.nodes()[c as int]));
            assert(s2.node_ok(base, hole, x));
            assert(s2.slot_ok(base, hole, x, i));
            assert(!s2.retired(c));
            Self::lemma_run_kept(s1, s2, base, hole, c, h, j);
        }
    }

    /// In a settled trie, a descent for a key whose hash follows the path
    /// to the live array node `a` passes `a`.
    pub proof fn lemma_reached(&self, a: usize, id: K::Id)
        requires
            self.inv(0, None),
            self.settled(0, self.root_spec(), NULL),
            self.live_arr(a),
            on_path(K::hash_of(id), self.path(a)),
        ensures
            self.lookup_from(self.root_spec(), id) == self.lookup_from(a, id),
        decreases self.depth(a),
    {
        if a != self.root_spec() {
            assert(self.settled_at(a, self.root_spec(), NULL));
            self.lemma_holder(a);
            let (b, j) = self.holder(a);
            assert(self.node_ok(0, None, b));
            assert(self.node_typed(b));
            assert(self.slot_ok(0, None, b, j));
            assert(self.node_ok(0, None, a));
            assert(self.settled_at(b, self.root_spec(), NULL));
            assert(self.open_slot(b, j));
            assert(!self.retired(b));
            assert(self.child_path(b, j).len() == self.path(b).len() + 1);
            self.lemma_on_child_path(K::hash_of(id), b, j);
            assert(self.resolve(b, a) == Target::<K::Id, V>::Down(a));
            self.lemma_reached(b, id);
        }
    }

    /// In a settled trie, a data node that nothing has replaced or frozen
    /// holds what the trie holds for its key.
    pub proof fn lemma_alive(&self, x: usize)
        requires
            self.inv(0, None),
            self.settled(0, self.root_spec(), NULL),
            self.live_data(x),
        ensures
            self.nodes()[x as int] matches Node::SNode { key, val, .. } && self.lookup_from(
                self.root_spec(),
                key.id(),
            ) == Some(val),
    {
        assert(self.settled_at(x, self.root_spec(), NULL));
        self.lemma_holder(x);
        let (a, i) = self.holder(x);
        assert(self.node_ok(0, None, a));
        assert(self.node_typed(a));
        assert(self.slot_ok(0, None, a, i));
        assert(self.node_ok(0, None, x));
        assert(self.settled_at(a, self.root_spec(), NULL));
        assert(self.open_slot(a, i));
        match self.nodes()[x as int] {
            Node::SNode { hash, key, val, .. } => {
                self.lemma_on_child_path(hash, a, i);
                self.lemma_reached(a, key.id());
                assert(self.slot_for(a, key.id()) == i);
            },
            _ => {},
        }
    }
}

} // verus!
