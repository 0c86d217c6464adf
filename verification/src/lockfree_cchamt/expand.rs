//! The operations on the arena: insertion, and the expansion of a narrow
//! array node into a wide one by freezing and copying.
use crate::lockfree_cchamt::{
    groups_differ, low_bits_differ, makeanode, on_path, part_at, separable, separable_from,
    slot_index, slot_of, Kind, LockfreeTrie, Meta, Node, Target, TrieData, TrieKey, NARROW, NULL,
    WIDE,
};
use vstd::prelude::*;

verus! {

impl<K: TrieKey, V: TrieData> LockfreeTrie<K, V> {
    /// The array node that the frozen wrapper in slot `i` of `nnode` wraps,
    /// where that slot holds a frozen wrapper.
    pub open spec fn pending(&self, nnode: usize, i: int) -> usize {
        if 0 <= i < self.slots(nnode).len() && self.valid(self.slots(nnode)[i])
            && self.nodes()[self.slots(nnode)[i] as int] is FNode {
            self.nodes()[self.slots(nnode)[i] as int]->frozen
        } else {
            NULL
        }
    }

    /// What holds between two rounds of `_freeze` on `nnode`, of which `i`
    /// slots are frozen.
    pub open spec fn freeze_inv(
        &self,
        before: &Self,
        nnode: usize,
        i: int,
        base: usize,
        hole: Option<(usize, int)>,
        top: usize,
    ) -> bool {
        let d = before.depth(nnode);
        &&& self.inv(base, hole)
        &&& before.kept(self)
        &&& before.same_lookups(self)
        &&& before.same_above(self, d)
        &&& before.same_exp(self)
        &&& before.frees(self)
        &&& before.same_below(self, base)
        &&& self.is_arr(nnode)
        &&& self.retired(nnode)
        &&& 0 <= i <= self.slots(nnode).len()
        &&& self.metas()[nnode as int].upto == i
        &&& self.depth(nnode) == d
        &&& d <= 15
        &&& nnode >= base
        &&& hole is Some ==> before.is_arr(hole->Some_0.0) && self.depth(hole->Some_0.0) < d
        &&& forall|j: int| i < j < self.slots(nnode).len() ==> self.plain(#[trigger] self.slots(nnode)[j])
        &&& i < self.slots(nnode).len() ==> self.plain(self.slots(nnode)[i]) || (self.pending(
            nnode,
            i,
        ) != NULL && self.fresh(self.pending(nnode, i)))
        &&& self.freezing(base, top, d, nnode, self.pending(nnode, i))
        &&& forall|x: usize|
            self.valid(x) && !before.valid(x) ==> !(#[trigger] self.nodes()[x as int] is ANode)
    }

    /// What `_freeze` leaves: `nnode` and the array nodes below it are
    /// frozen; descents find what they found; nothing above the depth of
    /// `nnode` and no expansion node has changed, and no array node was made.
    pub open spec fn freeze_post(
        &self,
        before: &Self,
        nnode: usize,
        base: usize,
        hole: Option<(usize, int)>,
        top: usize,
    ) -> bool {
        &&& self.inv(base, hole)
        &&& before.kept(self)
        &&& before.same_lookups(self)
        &&& before.same_above(self, before.depth(nnode))
        &&& before.same_exp(self)
        &&& before.frees(self)
        &&& before.same_below(self, base)
        &&& self.frozen(nnode)
        &&& self.freezing(base, top, before.depth(nnode), NULL, NULL)
        &&& forall|x: usize|
            self.valid(x) && !before.valid(x) ==> !(#[trigger] self.nodes()[x as int] is ANode)
    }

    /// Brings every slot of the array node `nnode`, which has left the live
    /// trie, into its frozen form: an empty slot takes the empty-frozen
    /// marker, a data node has its `txn` set to the data-frozen marker, an
    /// array node is wrapped and frozen in turn. An array node that is
    /// frozen already stays as it is, and so does all else.
    pub(crate) fn _freeze(
        &mut self,
        nnode: usize,
        Ghost(base): Ghost<usize>,
        Ghost(hole): Ghost<Option<(usize, int)>>,
        Ghost(top): Ghost<usize>,
    )
        requires
            old(self).inv(base, hole),
            old(self).is_arr(nnode),
            old(self).frozen(nnode) || {
                &&& old(self).fresh(nnode)
                &&& old(self).freezing(base, top, old(self).depth(nnode), nnode, NULL)
                &&& nnode >= base
                &&& hole is Some ==> old(self).is_arr(hole->Some_0.0) && old(self).depth(
                    hole->Some_0.0,
                ) < old(self).depth(nnode)
            },
        ensures
            !old(self).frozen(nnode) ==> final(self).freeze_post(old(self), nnode, base, hole, top),
            old(self).frozen(nnode) ==> *final(self) == *old(self),
        decreases 16 - old(self).depth(nnode), 2int, 0int,
    {
        let ghost again = self.frozen(nnode);
        proof {
            assert(self.node_ok(base, hole, nnode));
            assert(self.node_typed(nnode));
        }
        let len = self.get_ary_length(nnode);
        let ghost d = self.depth(nnode);
        let mut i: usize = 0;
        proof {
            if !again {
                Self::lemma_refl(self);
                assert(self.pending(nnode, 0) == NULL) by {
                    if 0 < self.slots(nnode).len() {
                        assert(self.plain(self.slots(nnode)[0]));
                    }
                }
            }
        }
        while i < len
            invariant
                again == old(self).frozen(nnode),
                !again ==> self.freeze_inv(old(self), nnode, i as int, base, hole, top),
                again ==> *self == *old(self),
                old(self).inv(base, hole),
                old(self).is_arr(nnode),
                i <= len,
                len == self.slots(nnode).len(),
                d == old(self).depth(nnode),
            decreases len - i, (if self.is_arr(self.slots(nnode)[i as int]) { 1int } else { 0int }),
        {
            let ghost s1 = *self;
            let pos = i;
            let nodeptr = self.get_oldptr(nnode, pos);
            proof {
                assert(self.node_ok(base, hole, nnode));
                assert(self.slot_ok(base, hole, nnode, pos as int));
                assert(self.node_typed(nnode));
                assert(self.slot_typed(nodeptr));
                if !again {
                    assert(self.open_slot(nnode, pos as int));
                    assert(s1.freezing_at(nnode, top, d, nnode, s1.pending(nnode, pos as int)));
                } else {
                    assert(!self.open_slot(nnode, pos as int));
                    assert(d <= 15);
                }
            }
            i += 1;
            if nodeptr == NULL {
                assert(!again);
                let fv = self.allocate(Node::FVNode, Ghost(Meta::blank()));
                if self.cas_slot(nnode, pos, nodeptr, fv) != nodeptr {
                    i -= 1;
                }
                self.mark_frozen(Ghost(nnode), Ghost((pos + 1) as nat));
                proof {
                    Self::lemma_fresh_free(&s1, fv);
                    assert(s1.step(self, nnode, pos as int));
                    Self::lemma_step(&s1, self, base, hole, hole, nnode, pos as int);
                    Self::lemma_sim_resolve(&s1, self, nnode, pos as int);
                    Self::lemma_freeze_round(&s1, self, old(self), nnode, pos as int, base, hole, top);
                }
            } else {
                let kind = self.kind_at(nodeptr);
                if kind == Kind::Data {
                    let txnptr = self.get_txn(nodeptr);
                    proof {
                        assert(self.node_typed(nodeptr));
                    }
                    let tkind = self.kind_at(txnptr);
                    if tkind == Kind::NoTxn {
                        assert(!again);
                        let fs = self.allocate(Node::FSNode, Ghost(Meta::blank()));
                        if self.cas_txn(nodeptr, txnptr, fs) != txnptr {
                            i -= 1;
                        }
                        self.mark_frozen(Ghost(nnode), Ghost((pos + 1) as nat));
                        proof {
                            assert(self.slots(nnode) =~= s1.slots(nnode).update(
                                pos as int,
                                self.slots(nnode)[pos as int],
                            ));
                            assert(s1.step(self, nnode, pos as int));
                            Self::lemma_step(&s1, self, base, hole, hole, nnode, pos as int);
                            Self::lemma_sim_resolve(&s1, self, nnode, pos as int);
                            assert(!self.live_data(nodeptr));
                            Self::lemma_freeze_round(
                                &s1,
                                self,
                                old(self),
                                nnode,
                                pos as int,
                                base,
                                hole,
                                top,
                            );
                        }
                    } else if tkind == Kind::DataFrozen {
                    } else {
                        assert(!again);
                        self.cas_slot(nnode, pos, nodeptr, txnptr);
                        i -= 1;
                    }
                } else if kind == Kind::Array {
                    assert(!again);
                    let fnode = self.allocate(
                        Node::FNode { frozen: nodeptr },
                        Ghost(Meta::blank()),
                    );
                    self.cas_slot(nnode, pos, nodeptr, fnode);
                    i -= 1;
                    self.mark_retired(Ghost(nodeptr));
                    proof {
                        Self::lemma_fresh_free(&s1, fnode);
                        assert(s1.step(self, nnode, pos as int));
                        assert(s1.node_ok(base, hole, nodeptr));
                        assert(s1.depth(nodeptr) == d + 1) by {
                            assert(s1.child_path(nnode, pos as int).len() == s1.path(nnode).len()
                                + 1);
                        }
                        assert forall|j: int|
                            0 <= j < s1.slots(nodeptr).len() implies #[trigger] self.slot_ok(
                            base,
                            hole,
                            nodeptr,
                            j,
                        ) by {
                            assert(s1.slot_ok(base, hole, nodeptr, j));
                            Self::lemma_slot_retired(&s1, self, base, hole, hole, nodeptr, j);
                        }
                        Self::lemma_step(&s1, self, base, hole, hole, nnode, pos as int);
                        Self::lemma_sim_resolve(&s1, self, nnode, pos as int);
                        Self::lemma_freeze_wrap(
                            &s1,
                            self,
                            old(self),
                            nnode,
                            pos as int,
                            base,
                            hole,
                            top,
                        );
                    }
                } else if kind == Kind::ArrayFrozen {
                    let frozen = self.get_frozen(nodeptr);
                    proof {
                        assert(s1.child_path(nnode, pos as int).len() == s1.path(nnode).len() + 1);
                        assert(s1.depth(frozen) == d + 1);
                        if again {
                            assert(s1.frozen(frozen));
                        }
                        if !again {
                            assert(s1.pending(nnode, pos as int) == frozen);
                            assert(s1.freezing(base, top, d + 1, frozen, NULL)) by {
                                assert forall|x: usize|
                                    s1.valid(x) && x >= base implies #[trigger] s1.freezing_at(
                                    x,
                                    top,
                                    d + 1,
                                    frozen,
                                    NULL,
                                ) by {
                                    assert(s1.freezing_at(x, top, d, nnode, frozen));
                                }
                            }
                            assert(s1.fresh(frozen));
                            assert(s1.node_typed(frozen));
                            assert(!s1.frozen(frozen));
                        }
                    }
                    self._freeze(frozen, Ghost(base), Ghost(hole), Ghost(top));
                    let ghost s2 = *self;
                    self.mark_frozen(Ghost(nnode), Ghost((pos + 1) as nat));
                    proof {
                        if !again {
                            assert(s1.same_at(&s2, nnode));
                            assert(s2.nodes()[nnode as int] == s1.nodes()[nnode as int]);
                            assert(s2.metas()[nnode as int] == s1.metas()[nnode as int]);
                            assert(s2.node_ok(base, hole, nnode));
                            assert(s2.slot_ok(base, hole, nnode, pos as int));
                            assert(s1.nodes()[nodeptr as int].kept_as(s2.nodes()[nodeptr as int]));
                            assert(s2.step(self, nnode, pos as int)) by {
                                assert(self.slots(nnode) =~= s2.slots(nnode).update(
                                    pos as int,
                                    self.slots(nnode)[pos as int],
                                ));
                            }
                            Self::lemma_step(&s2, self, base, hole, hole, nnode, pos as int);
                            Self::lemma_sim_resolve(&s2, self, nnode, pos as int);
                            Self::lemma_freeze_join(
                                &s1,
                                &s2,
                                self,
                                old(self),
                                nnode,
                                pos as int,
                                base,
                                hole,
                                top,
                            );
                        }
                    }
                } else if kind == Kind::Expansion {
                    assert(!again);
                    self._complete_expansion(nodeptr, Ghost(base), Ghost(top));
                    i -= 1;
                } else {
                }
            }
        }
        proof {
            if !again {
                assert(self.pending(nnode, len as int) == NULL);
                assert forall|x: usize|
                    self.valid(x) && x >= base implies #[trigger] self.freezing_at(
                    x,
                    top,
                    d,
                    NULL,
                    NULL,
                ) by {
                    assert(self.freezing_at(x, top, d, nnode, NULL));
                }
            }
        }
    }

    /// The state between two rounds after a round that froze slot `pos` in
    /// place.
    pub(crate) proof fn lemma_freeze_round(
        s1: &Self,
        s2: &Self,
        before: &Self,
        nnode: usize,
        pos: int,
        base: usize,
        hole: Option<(usize, int)>,
        top: usize,
    )
        requires
            s1.freeze_inv(before, nnode, pos, base, hole, top),
            pos < s1.slots(nnode).len(),
            s1.plain(s1.slots(nnode)[pos]),
            s1.step(s2, nnode, pos),
            s2.inv(base, hole),
            s1.kept(s2),
            s1.same_lookups(s2),
            forall|c: usize| s1.free(c) && c != NULL && c != s2.slots(nnode)[pos] ==> s2.free(c),
            forall|c: usize| #[trigger] s1.held(c) && c != s1.slots(nnode)[pos] ==> s2.held(c),
            s2.slots(nnode)[pos] == s1.slots(nnode)[pos] || !s1.valid(s2.slots(nnode)[pos]),
            s2.metas()[nnode as int].upto == pos + 1,
            s1.valid(s1.slots(nnode)[pos]) ==> !s2.live_data(s1.slots(nnode)[pos]) && !s2.is_arr(
                s1.slots(nnode)[pos],
            ),
            forall|x: usize|
                s2.valid(x) && !s1.valid(x) ==> !(#[trigger] s2.nodes()[x as int] is ANode) && !(
                s2.nodes()[x as int] is SNode),
        ensures
            s2.freeze_inv(before, nnode, pos + 1, base, hole, top),
    {
        let d = before.depth(nnode);
        let x0 = s1.slots(nnode)[pos];
        Self::lemma_kept_trans(before, s1, s2);
        Self::lemma_lookups_trans(before, s1, s2);
        Self::lemma_frees_step(s1, s2, nnode, pos);
        Self::lemma_frees_trans(before, s1, s2);
        assert(s1.same_above(s2, d)) by {
            assert forall|a: usize|
                s1.valid(a) && s1.nodes()[a as int] is ANode && s1.depth(a) < d
                implies #[trigger] s1.same_at(s2, a) by {
                assert(s1.node_typed(nnode));
                assert(s1.slot_typed(x0));
            }
        }
        Self::lemma_above_trans(before, s1, s2, d, d, d);
        assert(s1.same_below(s2, base)) by {
            assert forall|a: usize| s1.valid(a) && a < base implies #[trigger] s1.same_at(s2, a) by {
                assert(s1.node_ok(base, hole, nnode));
                assert(s1.slot_ok(base, hole, nnode, pos));
            }
        }
        Self::lemma_below_trans(before, s1, s2, base, base, base);
        assert(before.same_exp(s2)) by {
            assert forall|a: usize|
                before.valid(a) && before.nodes()[a as int] is ENode
                implies #[trigger] before.same_at(s2, a) by {
                assert(before.same_at(s1, a));
                assert(s1.same_at(s2, a));
            }
        }
        assert(s1.nodes()[nnode as int].kept_as(s2.nodes()[nnode as int]));
        assert forall|j: int| pos + 1 < j < s2.slots(nnode).len() implies s2.plain(
            #[trigger] s2.slots(nnode)[j],
        ) by {
            let c = s1.slots(nnode)[j];
            assert(s1.plain(c));
            assert(s2.slots(nnode)[j] == c);
            if c != NULL {
                assert(s1.nodes()[c as int].kept_as(s2.nodes()[c as int]));
            }
        }
        if pos + 1 < s2.slots(nnode).len() {
            let c = s1.slots(nnode)[pos + 1];
            assert(s1.plain(c));
            assert(s2.slots(nnode)[pos + 1] == c);
            if c != NULL {
                assert(s1.nodes()[c as int].kept_as(s2.nodes()[c as int]));
            }
            assert(s2.plain(c));
        }
        assert(s2.pending(nnode, pos + 1) == NULL);
        assert(s1.pending(nnode, pos) == NULL);
        assert(s2.freezing_at(nnode, top, d, nnode, NULL));
        Self::lemma_freezing_step(s1, s2, base, top, d, nnode, NULL, nnode, NULL, nnode, pos);
        if hole is Some {
            let h = hole->Some_0.0;
            assert(before.nodes()[h as int].kept_as(s2.nodes()[h as int]));
            assert(before.nodes()[h as int].kept_as(s1.nodes()[h as int]));
        }
        assert forall|x: usize| s2.valid(x) && !before.valid(x) implies !(
        #[trigger] s2.nodes()[x as int] is ANode) by {
            if s1.valid(x) {
                assert(s1.nodes()[x as int].kept_as(s2.nodes()[x as int]));
            }
        }
    }

    /// The state between two rounds after a round that wrapped the array
    /// node in slot `pos`.
    pub(crate) proof fn lemma_freeze_wrap(
        s1: &Self,
        s2: &Self,
        before: &Self,
        nnode: usize,
        pos: int,
        base: usize,
        hole: Option<(usize, int)>,
        top: usize,
    )
        requires
            s1.freeze_inv(before, nnode, pos, base, hole, top),
            pos < s1.slots(nnode).len(),
            s1.is_arr(s1.slots(nnode)[pos]),
            !s1.retired(s1.slots(nnode)[pos]),
            s1.step(s2, nnode, pos),
            s2.inv(base, hole),
            s1.kept(s2),
            s1.same_lookups(s2),
            forall|c: usize| s1.free(c) && c != NULL && c != s2.slots(nnode)[pos] ==> s2.free(c),
            forall|c: usize| #[trigger] s1.held(c) && c != s1.slots(nnode)[pos] ==> s2.held(c),
            !s1.valid(s2.slots(nnode)[pos]),
            s2.valid(s2.slots(nnode)[pos]),
            s2.nodes()[s2.slots(nnode)[pos] as int] == (Node::<K, V>::FNode {
                frozen: s1.slots(nnode)[pos],
            }),
            s2.metas()[nnode as int] == s1.metas()[nnode as int],
            s2.metas()[s1.slots(nnode)[pos] as int] == (Meta {
                retired: true,
                upto: 0,
                ..s1.metas()[s1.slots(nnode)[pos] as int]
            }),
            s2.nodes().len() == s1.nodes().len() + 1,
        ensures
            s2.freeze_inv(before, nnode, pos, base, hole, top),
    {
        let d = before.depth(nnode);
        let c = s1.slots(nnode)[pos];
        let f = s2.slots(nnode)[pos];
        Self::lemma_kept_trans(before, s1, s2);
        Self::lemma_lookups_trans(before, s1, s2);
        Self::lemma_frees_step(s1, s2, nnode, pos);
        Self::lemma_frees_trans(before, s1, s2);
        assert(s1.node_ok(base, hole, nnode));
        assert(s1.slot_ok(base, hole, nnode, pos));
        assert(s1.child_path(nnode, pos).len() == s1.path(nnode).len() + 1);
        assert(s1.depth(c) == d + 1);
        assert(s1.same_above(s2, d)) by {
            assert forall|a: usize|
                s1.valid(a) && s1.nodes()[a as int] is ANode && s1.depth(a) < d
                implies #[trigger] s1.same_at(s2, a) by {}
        }
        Self::lemma_above_trans(before, s1, s2, d, d, d);
        assert(s1.same_below(s2, base)) by {
            assert forall|a: usize| s1.valid(a) && a < base implies #[trigger] s1.same_at(s2, a) by {}
        }
        Self::lemma_below_trans(before, s1, s2, base, base, base);
        assert(before.same_exp(s2)) by {
            assert forall|a: usize|
                before.valid(a) && before.nodes()[a as int] is ENode
                implies #[trigger] before.same_at(s2, a) by {
                assert(before.same_at(s1, a));
                assert(s1.same_at(s2, a));
            }
        }
        assert(s1.nodes()[nnode as int].kept_as(s2.nodes()[nnode as int]));
        assert forall|j: int| pos < j < s2.slots(nnode).len() implies s2.plain(
            #[trigger] s2.slots(nnode)[j],
        ) by {
            let x = s1.slots(nnode)[j];
            assert(s1.plain(x));
            assert(s2.slots(nnode)[j] == x);
            if x != NULL {
                assert(s1.nodes()[x as int].kept_as(s2.nodes()[x as int]));
            }
        }
        assert(s2.pending(nnode, pos) == c);
        assert(s1.pending(nnode, pos) == NULL);
        assert(s2.fresh(c)) by {
            assert(s1.node_ok(base, hole, c));
            assert(s1.node_typed(c));
            assert forall|j: int| 0 <= j < s2.slots(c).len() implies s2.plain(
                #[trigger] s2.slots(c)[j],
            ) by {
                assert(s1.slot_ok(base, hole, c, j));
                let x = s1.slots(c)[j];
                assert(s1.slot_typed(x));
                if x != NULL {
                    assert(s1.nodes()[x as int].kept_as(s2.nodes()[x as int]));
                }
            }
        }
        assert(s2.freezing_at(nnode, top, d, nnode, c));
        assert(s2.freezing_at(c, top, d, nnode, c));
        assert(s2.freezing_at(f, top, d, nnode, c));
        Self::lemma_freezing_step(s1, s2, base, top, d, nnode, NULL, nnode, c, nnode, pos);
        if hole is Some {
            let h = hole->Some_0.0;
            assert(before.nodes()[h as int].kept_as(s2.nodes()[h as int]));
            assert(before.nodes()[h as int].kept_as(s1.nodes()[h as int]));
        }
        assert forall|x: usize| s2.valid(x) && !before.valid(x) implies !(
        #[trigger] s2.nodes()[x as int] is ANode) by {
            if s1.valid(x) {
                assert(s1.nodes()[x as int].kept_as(s2.nodes()[x as int]));
            }
        }
    }

    /// The state between two rounds after the array node wrapped in slot
    /// `pos` has been frozen and the slot counted as frozen.
    pub(crate) proof fn lemma_freeze_join(
        s1: &Self,
        s2: &Self,
        s3: &Self,
        before: &Self,
        nnode: usize,
        pos: int,
        base: usize,
        hole: Option<(usize, int)>,
        top: usize,
    )
        requires
            s1.freeze_inv(before, nnode, pos, base, hole, top),
            pos < s1.slots(nnode).len(),
            s1.pending(nnode, pos) != NULL,
            ({
                let c = s1.pending(nnode, pos);
                let d = before.depth(nnode);
                &&& s1.depth(c) == d + 1
                &&& s2.inv(base, hole)
                &&& s1.kept(s2)
                &&& s1.same_lookups(s2)
                &&& s1.same_above(s2, d + 1)
                &&& s1.same_exp(s2)
                &&& s1.frees(s2)
                &&& s1.same_below(s2, base)
                &&& s2.frozen(c)
                &&& s2.freezing(base, top, d + 1, NULL, NULL)
                &&& forall|x: usize|
                    s2.valid(x) && !s1.valid(x) ==> !(#[trigger] s2.nodes()[x as int] is ANode)
            }),
            s2.step(s3, nnode, pos),
            s3.nodes().len() == s2.nodes().len(),
            s3.slots(nnode)[pos] == s2.slots(nnode)[pos],
            s3.inv(base, hole),
            s2.kept(s3),
            s2.same_lookups(s3),
            forall|c: usize| s2.free(c) && c != NULL && c != s3.slots(nnode)[pos] ==> s3.free(c),
            forall|c: usize| #[trigger] s2.held(c) && c != s2.slots(nnode)[pos] ==> s3.held(c),
            s3.held(s3.slots(nnode)[pos]),
            s3.metas()[nnode as int].upto == pos + 1,
        ensures
            s3.freeze_inv(before, nnode, pos + 1, base, hole, top),
    {
        let d = before.depth(nnode);
        let c = s1.pending(nnode, pos);
        let f = s1.slots(nnode)[pos];
        Self::lemma_kept_trans(s1, s2, s3);
        Self::lemma_kept_trans(before, s1, s3);
        Self::lemma_lookups_trans(s1, s2, s3);
        Self::lemma_lookups_trans(before, s1, s3);
        assert(s1.same_at(s2, nnode));
        Self::lemma_frees_step(s2, s3, nnode, pos);
        Self::lemma_frees_trans(s1, s2, s3);
        Self::lemma_frees_trans(before, s1, s3);
        assert(s2.same_above(s3, d)) by {
            assert forall|a: usize|
                s2.valid(a) && s2.nodes()[a as int] is ANode && s2.depth(a) < d
                implies #[trigger] s2.same_at(s3, a) by {}
        }
        Self::lemma_above_trans(s1, s2, s3, d, d + 1, d);
        Self::lemma_above_trans(before, s1, s3, d, d, d);
        assert(s2.same_below(s3, base)) by {
            assert forall|a: usize| s2.valid(a) && a < base implies #[trigger] s2.same_at(s3, a) by {
                assert(s2.node_ok(base, hole, nnode));
                assert(s2.slot_ok(base, hole, nnode, pos));
            }
        }
        Self::lemma_below_trans(s1, s2, s3, base, base, base);
        Self::lemma_below_trans(before, s1, s3, base, base, base);
        assert(before.same_exp(s3)) by {
            assert forall|a: usize|
                before.valid(a) && before.nodes()[a as int] is ENode
                implies #[trigger] before.same_at(s3, a) by {
                assert(before.same_at(s1, a));
                assert(s1.same_at(s2, a));
                assert(s2.same_at(s3, a));
            }
        }
        assert(s1.nodes()[nnode as int].kept_as(s3.nodes()[nnode as int]));
        assert forall|j: int| pos + 1 < j < s3.slots(nnode).len() implies s3.plain(
            #[trigger] s3.slots(nnode)[j],
        ) by {
            let x = s1.slots(nnode)[j];
            assert(s1.plain(x));
            assert(s3.slots(nnode)[j] == x);
            if x != NULL {
                assert(s1.nodes()[x as int].kept_as(s3.nodes()[x as int]));
            }
        }
        if pos + 1 < s3.slots(nnode).len() {
            let x = s1.slots(nnode)[pos + 1];
            assert(s1.plain(x));
            assert(s3.slots(nnode)[pos + 1] == x);
            if x != NULL {
                assert(s1.nodes()[x as int].kept_as(s3.nodes()[x as int]));
            }
            assert(s3.plain(x));
        }
        assert(s3.pending(nnode, pos + 1) == NULL);
        // the state after the inner freeze, seen from the depth of `nnode`
        assert(s2.freezing(base, top, d, nnode, NULL)) by {
            assert forall|x: usize| s2.valid(x) && x >= base implies #[trigger] s2.freezing_at(
                x,
                top,
                d,
                nnode,
                NULL,
            ) by {
                assert(s2.freezing_at(x, top, d + 1, NULL, NULL));
                if s2.is_arr(x) && s2.retired(x) && s2.depth(x) == d && x != nnode {
                    if s1.valid(x) {
                        assert(s1.nodes()[x as int].kept_as(s2.nodes()[x as int]));
                        assert(s1.same_at(s2, x));
                        assert(s1.freezing_at(x, top, d, nnode, c));
                    }
                }
            }
        }
        assert(s3.freezing_at(nnode, top, d, nnode, NULL));
        assert(s2.nodes()[f as int].kept_as(s3.nodes()[f as int]));
        Self::lemma_freezing_step(s2, s3, base, top, d, nnode, NULL, nnode, NULL, nnode, pos);
        if hole is Some {
            let h = hole->Some_0.0;
            assert(before.nodes()[h as int].kept_as(s3.nodes()[h as int]));
            assert(before.nodes()[h as int].kept_as(s1.nodes()[h as int]));
        }
        assert forall|x: usize| s3.valid(x) && !before.valid(x) implies !(
        #[trigger] s3.nodes()[x as int] is ANode) by {
            if s1.valid(x) {
                assert(s1.nodes()[x as int].kept_as(s3.nodes()[x as int]));
            } else {
                assert(s2.nodes()[x as int].kept_as(s3.nodes()[x as int]));
            }
        }
    }

    /// What a descent for `id` finds in a sub-trie that holds the two data
    /// nodes `prior` and `sn`.
    pub open spec fn pair_lookup(prior: Node<K, V>, sn: Node<K, V>, id: K::Id) -> Option<V> {
        if prior->SNode_key.id() == id {
            Some(prior->SNode_val)
        } else if sn->SNode_key.id() == id {
            Some(sn->SNode_val)
        } else {
            None
        }
    }

    /// The narrow array node `n` of depth `d` heads the chain that parts
    /// the data nodes `prior` and `sn`: each array node of the chain has
    /// one slot in use, for the next one, down to the first depth at which
    /// the two hashes select different slots; the array node there holds
    /// the two data nodes, and nothing else.
    pub open spec fn pair_chain(&self, n: usize, prior: Node<K, V>, sn: Node<K, V>, d: int) -> bool
        decreases 16 - d,
    {
        let p1 = slot_index(prior.hash_spec(), 4 * d, NARROW as int);
        let p2 = slot_index(sn.hash_spec(), 4 * d, NARROW as int);
        &&& self.is_arr(n)
        &&& self.slots(n).len() == NARROW
        &&& self.depth(n) == d
        &&& 0 <= d <= 15
        &&& forall|j: int| 0 <= j < NARROW && j != p1 && j != p2 ==> #[trigger] self.slots(n)[j] == NULL
        &&& if p1 == p2 {
            d < 15 && self.pair_chain(self.slots(n)[p1], prior, sn, d + 1)
        } else {
            &&& self.valid(self.slots(n)[p1])
            &&& self.nodes()[self.slots(n)[p1] as int] == prior
            &&& self.valid(self.slots(n)[p2])
            &&& self.nodes()[self.slots(n)[p2] as int] == sn
        }
    }

    /// A chain stays what it is when the arena grows.
    proof fn lemma_chain_grown(s1: &Self, s2: &Self, added: usize, n: usize, prior: Node<K, V>, sn: Node<K, V>, d: int)
        requires
            s1.grown_by(s2, added),
            s1.pair_chain(n, prior, sn, d),
        ensures
            s2.pair_chain(n, prior, sn, d),
        decreases 16 - d,
    {
        let p1 = slot_index(prior.hash_spec(), 4 * d, NARROW as int);
        let p2 = slot_index(sn.hash_spec(), 4 * d, NARROW as int);
        Self::lemma_low_of_slot(prior.hash_spec(), 4 * d, NARROW as int);
        Self::lemma_low_of_slot(sn.hash_spec(), 4 * d, NARROW as int);
        assert(s2.nodes()[n as int] == s1.nodes()[n as int]);
        assert(s2.metas()[n as int] == s1.metas()[n as int]);
        if p1 == p2 {
            Self::lemma_chain_grown(s1, s2, added, s1.slots(n)[p1], prior, sn, d + 1);
        } else {
            assert(s2.nodes()[s1.slots(n)[p1] as int] == s1.nodes()[s1.slots(n)[p1] as int]);
            assert(s2.nodes()[s1.slots(n)[p2] as int] == s1.nodes()[s1.slots(n)[p2] as int]);
        }
    }

    /// Builds the narrow array node, for the depth `lev / 4`, that holds the
    /// data nodes `prior` and `sn` in the slots their hashes select; where both
    /// select one slot, that slot holds the narrow array node built for them
    /// one level down. Returns its address.
    pub(crate) fn _create_anode(
        &mut self,
        prior: Node<K, V>,
        sn: Node<K, V>,
        lev: u8,
        Ghost(base): Ghost<usize>,
        Ghost(hole): Ghost<Option<(usize, int)>>,
        Ghost(path): Ghost<Seq<(bool, int)>>,
        Ghost(top): Ghost<usize>,
    ) -> (n: usize)
        requires
            old(self).inv(base, hole),
            old(self).settled(base, top, NULL),
            base <= old(self).nodes().len(),
            old(self).fresh_data(prior),
            old(self).fresh_data(sn),
            prior->SNode_key.id() != sn->SNode_key.id(),
            lev == 4 * path.len(),
            on_path(prior.hash_spec(), path),
            on_path(sn.hash_spec(), path),
            separable_from(prior.hash_spec(), sn.hash_spec(), path.len() as int),
        ensures
            final(self).inv(base, hole),
            final(self).settled(base, top, n),
            old(self).kept(final(self)),
            old(self).same_lookups(final(self)),
            old(self).same_below(final(self), old(self).nodes().len() as usize),
            !old(self).valid(n),
            final(self).is_arr(n),
            final(self).slots(n).len() == NARROW,
            final(self).path(n) == path,
            !final(self).retired(n),
            final(self).free(n),
            forall|c: usize| old(self).valid(c) && old(self).free(c) ==> final(self).free(c),
            forall|id: K::Id| #[trigger]
                final(self).lookup_from(n, id) == Self::pair_lookup(prior, sn, id),
            final(self).pair_chain(n, prior, sn, path.len() as int),
        decreases 16 - path.len(),
    {
        let ghost s0 = *self;
        let ghost d = path.len() as int;
        let ghost h1 = prior.hash_spec();
        let ghost h2 = sn.hash_spec();
        proof {
            let j = choose|j: int| d <= j < 16 && #[trigger] low_bits_differ(h1, h2, j);
            assert(d <= 15);
        }
        let mut v = makeanode(NARROW);
        let old_pos = slot_of(prior.get_hash(), lev, NARROW);
        let sn_pos = slot_of(sn.get_hash(), lev, NARROW);
        if old_pos == sn_pos {
            proof {
                let j = choose|j: int| d <= j < 16 && #[trigger] low_bits_differ(h1, h2, j);
                assert(!low_bits_differ(h1, h2, d));
                assert(j >= d + 1);
                assert(separable_from(h1, h2, d + 1));
                Self::lemma_on_path_push(h1, path, false, old_pos as int);
                Self::lemma_on_path_push(h2, path, false, old_pos as int);
            }
            let inner = self._create_anode(
                prior,
                sn,
                lev + 4,
                Ghost(base),
                Ghost(hole),
                Ghost(path.push((false, old_pos as int))),
                Ghost(top),
            );
            v.set(old_pos, inner);
            let ghost s1 = *self;
            let n = self.allocate(
                Node::ANode(v),
                Ghost(Meta { path: path, retired: false, upto: 0 }),
            );
            proof {
                assert(s1.grown_by(self, n));
                assert(self.slots(n) == v@);
                assert(self.node_typed(n)) by {
                    assert forall|j: int| 0 <= j < self.slots(n).len() implies self.slot_typed(
                        #[trigger] self.slots(n)[j],
                    ) by {}
                }
                assert(self.child_path(n, old_pos as int) == path.push((false, old_pos as int)));
                assert forall|j: int| 0 <= j < self.slots(n).len() implies #[trigger] self.slot_ok(
                    base,
                    hole,
                    n,
                    j,
                ) by {}
                Self::lemma_alloc_arr(&s1, self, base, hole, n);
                Self::lemma_kept_trans(&s0, &s1, self);
                Self::lemma_lookups_trans(&s0, &s1, self);
                Self::lemma_below_trans(
                    &s0,
                    &s1,
                    self,
                    s0.nodes().len() as usize,
                    s0.nodes().len() as usize,
                    n,
                );
                assert(self.slots(n)[old_pos as int] == inner);
                Self::lemma_chain_grown(&s1, self, n, inner, prior, sn, d + 1);
                assert(self.held(inner));
                assert(self.settled_at(n, top, n));
                Self::lemma_settled_grown(&s1, self, base, top, inner, n);
                assert forall|c: usize| s0.valid(c) && s0.free(c) implies self.free(c) by {
                    assert(s1.free(c));
                    assert forall|a: usize, j: int|
                        self.is_arr(a) && 0 <= j < self.slots(a).len() implies #[trigger] self.slots(
                        a,
                    )[j] != c by {
                        if a != n {
                            assert(self.nodes()[a as int] == s1.nodes()[a as int]);
                            assert(s1.slots(a)[j] != c);
                        }
                    }
                }
                assert forall|id: K::Id| #[trigger]
                    self.lookup_from(n, id) == Self::pair_lookup(prior, sn, id) by {
                    assert(self.lookup_from(inner, id) == s1.lookup_from(inner, id));
                    if prior->SNode_key.id() == id || sn->SNode_key.id() == id {
                        assert(slot_index(K::hash_of(id), 4 * d, NARROW as int) == old_pos);
                    }
                }
            }
            n
        } else {
            let a = self.allocate(prior, Ghost(Meta::blank()));
            let ghost s1 = *self;
            let b = self.allocate(sn, Ghost(Meta::blank()));
            let ghost s2 = *self;
            v.set(old_pos, a);
            v.set(sn_pos, b);
            let n = self.allocate(
                Node::ANode(v),
                Ghost(Meta { path: path, retired: false, upto: 0 }),
            );
            proof {
                assert(s0.grown_by(&s1, a));
                assert(s1.node_typed(a));
                Self::lemma_alloc_plain(&s0, &s1, base, hole, a);
                assert(s1.grown_by(&s2, b));
                assert(s2.node_typed(b));
                Self::lemma_alloc_plain(&s1, &s2, base, hole, b);
                assert(s2.grown_by(self, n));
                assert(self.slots(n) == v@);
                assert(self.node_typed(n)) by {
                    assert forall|j: int| 0 <= j < self.slots(n).len() implies self.slot_typed(
                        #[trigger] self.slots(n)[j],
                    ) by {}
                }
                Self::lemma_on_path_push(h1, path, false, old_pos as int);
                Self::lemma_on_path_push(h2, path, false, sn_pos as int);
                assert(self.child_path(n, old_pos as int) == path.push((false, old_pos as int)));
                assert(self.child_path(n, sn_pos as int) == path.push((false, sn_pos as int)));
                assert forall|j: int| 0 <= j < self.slots(n).len() implies #[trigger] self.slot_ok(
                    base,
                    hole,
                    n,
                    j,
                ) by {}
                Self::lemma_alloc_arr(&s2, self, base, hole, n);
                Self::lemma_kept_trans(&s0, &s1, &s2);
                Self::lemma_lookups_trans(&s0, &s1, &s2);
                Self::lemma_kept_trans(&s0, &s2, self);
                Self::lemma_lookups_trans(&s0, &s2, self);
                Self::lemma_below_trans(&s0, &s1, &s2, a, a, b);
                Self::lemma_below_trans(&s0, &s2, self, a, a, n);
                assert(self.slots(n)[old_pos as int] == a);
                assert(self.slots(n)[sn_pos as int] == b);
                assert(self.held(a));
                assert(self.held(b));
                assert(s0.kept(self));
                assert forall|x: usize| s0.valid(x) implies #[trigger] s0.same_at(self, x) by {}
                Self::lemma_settled_grown(&s0, self, base, top, NULL, n);
                assert forall|c: usize| s0.valid(c) && s0.free(c) implies self.free(c) by {
                    assert(s1.free(c));
                    assert(s2.free(c));
                    assert forall|x: usize, j: int|
                        self.is_arr(x) && 0 <= j < self.slots(x).len() implies #[trigger] self.slots(
                        x,
                    )[j] != c by {
                        if x != n {
                            assert(self.nodes()[x as int] == s2.nodes()[x as int]);
                            assert(s2.slots(x)[j] != c);
                        }
                    }
                }
                assert forall|id: K::Id| #[trigger]
                    self.lookup_from(n, id) == Self::pair_lookup(prior, sn, id) by {
                    if prior->SNode_key.id() == id {
                        assert(slot_index(K::hash_of(id), 4 * d, NARROW as int) == old_pos);
                    }
                    if sn->SNode_key.id() == id {
                        assert(slot_index(K::hash_of(id), 4 * d, NARROW as int) == sn_pos);
                    }
                }
            }
            n
        }
    }

    /// The array node that stands where `cur` stood: what the slot of
    /// `prev` for `id` holds or, without a `prev`, `cur` itself.
    pub open spec fn landing(&self, before: &Self, prev: Option<usize>, cur: usize, id: K::Id) -> usize {
        match prev {
            Some(p) => self.slots(p)[before.slot_for(p, id)],
            None => cur,
        }
    }

    /// What `_insert` asks for.
    pub open spec fn insert_pre(&self, key: K, h: u64, lev: u8, cur: usize, prev: Option<usize>, base: usize, top: usize) -> bool {
        &&& self.inv(base, None)
        &&& self.settled(base, top, NULL)
        &&& h == K::hash_of(key.id())
        &&& self.is_arr(cur)
        &&& !self.retired(cur)
        &&& cur >= base
        &&& lev == 4 * self.depth(cur)
        &&& on_path(h, self.path(cur))
        &&& match prev {
            Some(p) => {
                &&& self.is_arr(p)
                &&& !self.retired(p)
                &&& p >= base
                &&& self.depth(p) + 1 == self.depth(cur)
                &&& self.slots(p)[self.slot_for(p, key.id())] == cur
            },
            None => self.slots(cur).len() == WIDE,
        }
        &&& self.apart_below(cur)
        &&& self.admits_below(cur, key.id())
    }

    /// The slot of `cur` for `id` holds the frozen form of an empty slot or
    /// of an array node, or a data node that has been frozen: an insertion
    /// cannot go on from here.
    pub open spec fn blocked(&self, cur: usize, id: K::Id) -> bool {
        let c = self.slots(cur)[self.slot_for(cur, id)];
        self.valid(c) && match self.nodes()[c as int] {
            Node::FVNode => true,
            Node::FNode { .. } => true,
            Node::SNode { txn, .. } => self.valid(txn) && self.nodes()[txn as int] is FSNode,
            _ => false,
        }
    }

    /// The slot of `cur` for `id` holds an expansion node.
    pub open spec fn expanding_at(&self, cur: usize, id: K::Id) -> bool {
        let c = self.slots(cur)[self.slot_for(cur, id)];
        self.valid(c) && self.nodes()[c as int] is ENode
    }

    /// What `_insert` asks for where it meets a frozen slot, or an
    /// expansion that it can complete.
    pub open spec fn giving_up_pre(&self, key: K, h: u64, lev: u8, cur: usize, base: usize, top: usize) -> bool {
        &&& self.typed()
        &&& h == K::hash_of(key.id())
        &&& self.is_arr(cur)
        &&& self.depth(cur) <= 15
        &&& lev == 4 * self.depth(cur)
        &&& self.blocked(cur, key.id()) || (self.expanding_at(cur, key.id()) && (
        self.expansion_pre(self.slots(cur)[self.slot_for(cur, key.id())], base, top)
            || self.adopting_pre(self.slots(cur)[self.slot_for(cur, key.id())], base, top)))
    }

    /// An insertion into a sub-trie of the live trie meets no frozen slot
    /// and no expansion.
    pub(crate) proof fn lemma_way_is_free(&self, key: K, h: u64, lev: u8, cur: usize, prev: Option<usize>, base: usize, top: usize)
        requires
            self.insert_pre(key, h, lev, cur, prev, base, top),
        ensures
            !self.blocked(cur, key.id()),
            !self.expanding_at(cur, key.id()),
            !self.giving_up_pre(key, h, lev, cur, base, top),
            self.typed(),
            self.depth(cur) <= 15,
    {
        assert(self.node_ok(base, None, cur));
        assert(self.node_typed(cur));
        let pos = self.slot_for(cur, key.id());
        Self::lemma_low_of_slot(h, 4 * self.depth(cur), self.slots(cur).len() as int);
        assert(self.slot_ok(base, None, cur, pos));
    }

    /// `later` is this trie after an insertion of a key of identity `id`
    /// below the array node `cur`, which stays, as far as the slots of
    /// `cur` go: the other slots hold what they held; a wide array node in
    /// the slot of the key stays there; in the place of a narrow one whose
    /// slot for the key holds a data node of another key stands a wide one.
    pub open spec fn child_after(&self, later: &Self, cur: usize, id: K::Id) -> bool {
        let pos = self.slot_for(cur, id);
        let c0 = self.slots(cur)[pos];
        let c1 = later.slots(cur)[pos];
        &&& forall|j: int|
            0 <= j < self.slots(cur).len() && j != pos ==> #[trigger] later.slots(cur)[j]
                == self.slots(cur)[j]
        &&& self.is_arr(c0) && self.slots(c0).len() == WIDE ==> c1 == c0
        &&& self.turning(c0, id) ==> later.is_arr(c1) && later.slots(c1).len() == WIDE
    }

    /// What `_insert` leaves: the sub-trie that stood at `cur` holds `val`
    /// for the key and otherwise what it held; above it nothing changed but
    /// the slot of `prev` that leads to it.
    pub open spec fn insert_post(&self, before: &Self, key: K, val: V, cur: usize, prev: Option<usize>, base: usize, top: usize) -> bool {
        let cur2 = self.landing(before, prev, cur, key.id());
        &&& self.inv(base, None)
        &&& self.settled(base, top, NULL)
        &&& before.kept(self)
        &&& before.same_below(self, base)
        &&& before.frees(self)
        &&& self.is_arr(cur2)
        &&& !self.retired(cur2)
        &&& cur2 >= base
        &&& self.path(cur2) == before.path(cur)
        &&& match prev {
            Some(p) => {
                &&& self.is_arr(p)
                &&& self.metas()[p as int] == before.metas()[p as int]
                &&& forall|j: int|
                    0 <= j < before.slots(p).len() && j != before.slot_for(p, key.id())
                        ==> #[trigger] self.slots(p)[j] == before.slots(p)[j]
                &&& before.same_above(self, before.depth(p))
            },
            None => cur2 == cur && self.slots(cur).len() == WIDE && before.same_above(
                self,
                before.depth(cur),
            ),
        }
        &&& forall|id: K::Id| #[trigger]
            self.lookup_from(cur2, id) == if id == key.id() {
                Some(val)
            } else {
                before.lookup_from(cur, id)
            }
        &&& forall|x: usize, id: K::Id|
            before.is_arr(x) && id != key.id() ==> #[trigger] self.lookup_from(x, id)
                == before.lookup_from(x, id)
        &&& before.widths_after(self, cur, cur2, key.id())
        &&& cur2 == cur ==> before.child_after(self, cur, key.id())
        &&& forall|j: int|
            #[trigger] before.turn_from(cur, key.id(), j) ==> self.run_from(
                cur2,
                K::hash_of(key.id()),
                j,
            )
        &&& if before.collides(cur, key.id()) && before.slots(cur).len() == NARROW {
            &&& !before.valid(cur2)
            &&& self.slots(cur2).len() == WIDE
            &&& self.frozen(cur)
        } else {
            cur2 == cur
        }
    }

    /// What `_complete_expansion` asks for: the expansion node `enode`
    /// stands in the slot it names, its narrow array node has left the live
    /// trie, and no wide one has been made for it.
    pub open spec fn expansion_pre(&self, enode: usize, base: usize, top: usize) -> bool {
        &&& self.valid(enode)
        &&& self.nodes()[enode as int] matches Node::ENode { parent, parentpos, narrow, wide, .. }
        &&& self.inv(base, Some((parent, parentpos as int)))
        &&& self.freezing(base, top, 0, narrow, NULL)
        &&& self.fresh(narrow)
        &&& self.is_arr(parent)
        &&& parentpos < self.slots(parent).len()
        &&& self.slots(parent)[parentpos as int] == enode
        &&& parent >= base
        &&& wide == NULL
        &&& self.apart_below(narrow)
    }

    /// What `_complete_expansion` leaves: a wide array node stands where
    /// the expansion node stood, and holds what the narrow one held.
    pub open spec fn expansion_post(&self, before: &Self, enode: usize, base: usize, top: usize) -> bool {
        let parent = before.nodes()[enode as int]->parent;
        let parentpos = before.nodes()[enode as int]->parentpos;
        let narrow = before.nodes()[enode as int]->narrow;
        let w = self.slots(parent)[parentpos as int];
        &&& self.inv(base, None)
        &&& self.settled(base, top, NULL)
        &&& before.kept(self)
        &&& before.same_lookups(self)
        &&& before.same_below(self, base)
        &&& before.frees(self)
        &&& before.same_above(self, before.depth(parent))
        &&& self.is_arr(parent)
        &&& self.metas()[parent as int] == before.metas()[parent as int]
        &&& self.slots(parent) == before.slots(parent).update(parentpos as int, w)
        &&& self.nodes()[enode as int]->wide == w
        &&& !before.valid(w)
        &&& self.is_arr(w)
        &&& !self.retired(w)
        &&& self.slots(w).len() == WIDE
        &&& self.path(w) == before.path(narrow)
        &&& self.frozen(narrow)
        &&& forall|id: K::Id| #[trigger] self.lookup_from(w, id) == before.lookup_from(narrow, id)
    }

    /// What `_complete_expansion` asks for where a wide array node has been
    /// named already: the expansion node `enode` stands in the slot it
    /// names, its narrow array node is frozen, and the wide one, which holds
    /// what the narrow one holds, stands in no slot yet.
    pub open spec fn adopting_pre(&self, enode: usize, base: usize, top: usize) -> bool {
        &&& self.valid(enode)
        &&& self.nodes()[enode as int] matches Node::ENode { parent, parentpos, narrow, wide, .. }
        &&& self.inv(base, Some((parent, parentpos as int)))
        &&& self.settled(base, top, wide)
        &&& self.is_arr(parent)
        &&& parentpos < self.slots(parent).len()
        &&& self.slots(parent)[parentpos as int] == enode
        &&& parent >= base
        &&& self.is_arr(narrow)
        &&& self.frozen(narrow)
        &&& self.apart_below(narrow)
        &&& wide != NULL
        &&& self.is_arr(wide)
        &&& !self.retired(wide)
        &&& self.slots(wide).len() == WIDE
        &&& self.path(wide) == self.path(narrow)
        &&& wide >= base
        &&& self.free(wide)
        &&& forall|id: K::Id| #[trigger] self.lookup_from(wide, id) == self.lookup_from(narrow, id)
    }

    /// What `_complete_expansion` leaves where a wide array node had been
    /// named already: that one stands where the expansion node stood; the
    /// one made meanwhile, at the address that was the next to be given,
    /// stands in no slot.
    pub open spec fn adopted_post(&self, before: &Self, enode: usize, base: usize, top: usize) -> bool {
        let parent = before.nodes()[enode as int]->parent;
        let parentpos = before.nodes()[enode as int]->parentpos;
        let narrow = before.nodes()[enode as int]->narrow;
        let w = before.nodes()[enode as int]->wide;
        &&& self.inv(base, None)
        &&& self.settled(base, top, before.nodes().len() as usize)
        &&& before.kept(self)
        &&& before.same_lookups(self)
        &&& before.same_below(self, base)
        &&& before.same_above(self, before.depth(parent))
        &&& self.is_arr(parent)
        &&& self.metas()[parent as int] == before.metas()[parent as int]
        &&& self.slots(parent) == before.slots(parent).update(parentpos as int, w)
        &&& self.nodes()[enode as int] == before.nodes()[enode as int]
        &&& self.is_arr(w)
        &&& !self.retired(w)
        &&& self.slots(w).len() == WIDE
        &&& forall|id: K::Id| #[trigger] self.lookup_from(w, id) == before.lookup_from(narrow, id)
    }

    /// What `_copy` asks for: `an` is frozen and lies below `wide`, a live
    /// wide array node that stands for an array node above `an`.
    pub open spec fn copy_pre(&self, an: usize, wide: usize, lev: u8) -> bool {
        &&& self.inv(wide, None)
        &&& self.settled(wide, wide, NULL)
        &&& self.is_arr(an)
        &&& self.frozen(an)
        &&& an < wide
        &&& self.is_arr(wide)
        &&& !self.retired(wide)
        &&& self.slots(wide).len() == WIDE
        &&& lev == 4 * self.depth(wide)
        &&& self.path(wide).is_prefix_of(self.path(an))
        &&& self.closed_below(wide)
        &&& forall|id1: K::Id, id2: K::Id|
            #![trigger self.holds(an, id1), self.holds(wide, id2)]
            #![trigger self.holds(an, id1), self.holds(an, id2)]
            #![trigger self.holds(wide, id1), self.holds(wide, id2)]
            (self.holds(an, id1) || self.holds(wide, id1)) && (self.holds(an, id2) || self.holds(
                wide,
                id2,
            )) && id1 != id2 ==> separable(K::hash_of(id1), K::hash_of(id2))
    }

    /// What `_copy` leaves: `wide` holds what `an` held and, for the other
    /// keys, what it held itself.
    pub open spec fn copy_post(&self, before: &Self, an: usize, wide: usize) -> bool {
        &&& self.inv(wide, None)
        &&& self.settled(wide, wide, NULL)
        &&& before.kept(self)
        &&& before.same_below(self, wide)
        &&& before.frees(self)
        &&& self.is_arr(wide)
        &&& !self.retired(wide)
        &&& forall|id: K::Id| #[trigger]
            self.lookup_from(wide, id) == if before.holds(an, id) {
                before.lookup_from(an, id)
            } else {
                before.lookup_from(wide, id)
            }
    }

    /// The state in which the narrow array node of the expansion node
    /// `enode` is frozen and the wide array node `w`, which holds nothing yet,
    /// has been made for it.
    pub open spec fn widened(&self, before: &Self, enode: usize, base: usize, top: usize, w: usize) -> bool {
        let par = before.nodes()[enode as int]->parent;
        let ppos = before.nodes()[enode as int]->parentpos as int;
        let narrow = before.nodes()[enode as int]->narrow;
        let hole = Some((par, ppos));
        &&& self.inv(base, hole)
        &&& self.settled(base, top, w)
        &&& self.copy_pre(narrow, w, before.nodes()[enode as int]->level)
        &&& before.kept(self)
        &&& before.same_lookups(self)
        &&& before.frees(self)
        &&& before.same_below(self, base)
        &&& before.same_above(self, before.depth(narrow))
        &&& before.same_at(self, enode)
        &&& before.same_at(self, par)
        &&& base <= w
        &&& w + 1 == self.nodes().len()
        &&& !before.valid(w)
        &&& self.free(w)
        &&& self.path(w) == before.path(narrow)
        &&& forall|j: int| 0 <= j < self.slots(w).len() ==> #[trigger] self.slots(w)[j] == NULL
    }

    /// Completes the expansion that the expansion node `enode` stands for:
    /// freezes its narrow array node, makes a wide one and copies into it
    /// what the narrow one holds, names the wide one in `wide`, and puts it
    /// in the place of the expansion node. Where `wide` names a wide array
    /// node already, that one goes into the place of the expansion node,
    /// and the one made here is left aside.
    pub(crate) fn _complete_expansion(
        &mut self,
        enode: usize,
        Ghost(base): Ghost<usize>,
        Ghost(top): Ghost<usize>,
    )
        requires
            old(self).expansion_pre(enode, base, top) || old(self).adopting_pre(enode, base, top),
        ensures
            old(self).expansion_pre(enode, base, top) ==> final(self).expansion_post(
                old(self),
                enode,
                base,
                top,
            ),
            old(self).adopting_pre(enode, base, top) ==> final(self).adopted_post(
                old(self),
                enode,
                base,
                top,
            ),
        decreases 16 - old(self).depth(old(self).nodes()[enode as int]->narrow), 3int, 0int,
    {
        let ghost s0 = *self;
        let ghost par = s0.nodes()[enode as int]->parent;
        let ghost ppos = s0.nodes()[enode as int]->parentpos as int;
        let ghost hole = Some((par, ppos));
        let ghost adopt = s0.nodes()[enode as int]->wide != NULL;
        let narrowptr = self.get_narrowptr(enode);
        proof {
            assert(s0.node_typed(narrowptr));
            if !adopt {
                s0.lemma_expansion_start(enode, base, top);
                assert(!s0.frozen(narrowptr));
            }
        }
        self._freeze(narrowptr, Ghost(base), Ghost(hole), Ghost(top));
        let ghost s1 = *self;
        let mut widenode = self.allocate(
            Node::ANode(makeanode(WIDE)),
            Ghost(Meta { path: s0.path(narrowptr), retired: false, upto: 0 }),
        );
        let ghost s2 = *self;
        let ghost w = widenode;
        proof {
            if !adopt {
                Self::lemma_widened(&s0, &s1, &s2, enode, base, top, w);
            } else {
                Self::lemma_adopt_widened(&s0, &s2, enode, base, top, w);
            }
        }
        let level = self.get_enode_level(enode);
        self._copy(narrowptr, widenode, level);
        let ghost s3 = *self;
        proof {
            assert(s2.same_at(&s3, enode));
        }
        if self.cas_wide(enode, NULL, widenode) != NULL {
            let wideptr = self.get_enode__wide(enode);
            widenode = wideptr;
        }
        let ghost s4 = *self;
        let parent = self.get_enode_parentref(enode);
        let parentpos = self.get_enode_parentpos(enode);
        proof {
            assert(s2.same_at(&s3, par));
            assert(s3.changed(&s4, par, ppos)) by {
                assert(s4.slots(par) =~= s3.slots(par).update(ppos, s4.slots(par)[ppos]));
            }
        }
        self.cas_slot(parent, parentpos as usize, enode, widenode);
        proof {
            assert(s4.changed(self, par, ppos));
            if !adopt {
                Self::lemma_expansion_done(&s0, &s2, &s3, &s4, self, enode, base, top, w);
            } else {
                Self::lemma_adopted_done(&s0, &s2, &s3, &s4, self, enode, base, top, w);
            }
        }
    }

    /// After the second wide array node was made for an expansion node
    /// that names one already: what `_copy` asks for holds.
    proof fn lemma_adopt_widened(s0: &Self, s2: &Self, enode: usize, base: usize, top: usize, w: usize)
        requires
            s0.adopting_pre(enode, base, top),
            s0.grown_by(s2, w),
            !s2.valid(NULL),
            s2.is_arr(w),
            s2.slots(w).len() == WIDE,
            forall|j: int| 0 <= j < s2.slots(w).len() ==> #[trigger] s2.slots(w)[j] == NULL,
            s2.metas()[w as int] == (Meta {
                path: s0.path(s0.nodes()[enode as int]->narrow),
                retired: false,
                upto: 0,
            }),
        ensures
            s2.copy_pre(s0.nodes()[enode as int]->narrow, w, s0.nodes()[enode as int]->level),
            s2.inv(
                base,
                Some((s0.nodes()[enode as int]->parent, s0.nodes()[enode as int]->parentpos as int)),
            ),
            s0.kept(s2),
            s0.same_lookups(s2),
            forall|a: usize| s0.valid(a) ==> #[trigger] s0.same_at(s2, a),
            s2.free(w),
            base <= w,
            w + 1 == s2.nodes().len(),
            s0.frees(s2),
    {
        let par = s0.nodes()[enode as int]->parent;
        let ppos = s0.nodes()[enode as int]->parentpos as int;
        let narrow = s0.nodes()[enode as int]->narrow;
        let hole = Some((par, ppos));
        assert(s0.node_ok(base, hole, par));
        assert(s0.slot_ok(base, hole, par, ppos));
        assert(s0.node_ok(base, hole, narrow));
        assert(s2.node_typed(w)) by {
            assert forall|j: int| 0 <= j < s2.slots(w).len() implies s2.slot_typed(
                #[trigger] s2.slots(w)[j],
            ) by {}
        }
        assert forall|j: int| 0 <= j < s2.slots(w).len() implies #[trigger] s2.slot_ok(
            base,
            hole,
            w,
            j,
        ) by {}
        Self::lemma_alloc_arr(s0, s2, base, hole, w);
        s2.lemma_rebase_up(base, hole, w);
        assert forall|a: usize| s0.valid(a) implies #[trigger] s0.same_at(s2, a) by {}
        assert(s2.settled(w, w, NULL)) by {
            assert forall|x: usize| s2.valid(x) && x >= w implies #[trigger] s2.settled_at(
                x,
                w,
                NULL,
            ) by {}
        }
        assert(s0.same_at(s2, narrow));
        assert(s0.same_at(s2, enode));
        assert(s2.path(w).is_prefix_of(s2.path(narrow))) by {
            assert(s2.path(w) =~= s2.path(narrow).subrange(0, s2.path(w).len() as int));
        }
        assert forall|id1: K::Id, id2: K::Id|
            (s2.holds(narrow, id1) || s2.holds(w, id1)) && (s2.holds(narrow, id2) || s2.holds(
                w,
                id2,
            )) && id1 != id2 implies separable(K::hash_of(id1), K::hash_of(id2)) by {
            let j1 = s2.slot_for(w, id1);
            if 0 <= j1 < s2.slots(w).len() {
                assert(s2.slots(w)[j1] == NULL);
            }
            let j2 = s2.slot_for(w, id2);
            if 0 <= j2 < s2.slots(w).len() {
                assert(s2.slots(w)[j2] == NULL);
            }
            assert(s2.lookup_from(narrow, id1) == s0.lookup_from(narrow, id1));
            assert(s2.lookup_from(narrow, id2) == s0.lookup_from(narrow, id2));
            assert(s0.holds(narrow, id1));
            assert(s0.holds(narrow, id2));
            assert(s0.parts(narrow, K::hash_of(id1), K::hash_of(id2)));
            assert forall|j: int|
                !#[trigger] s0.parts_at(narrow, K::hash_of(id1), K::hash_of(id2), j) by {}
        }
        assert(s0.frees(s2)) by {
            assert forall|c: usize| s0.valid(c) && #[trigger] s0.free(c) implies s2.free(c) by {
                assert forall|j: int| 0 <= j < s2.slots(w).len() implies #[trigger] s2.slots(w)[j]
                    != c by {}
            }
        }
    }

    /// What `_complete_expansion` leaves after the copy into the second
    /// wide array node and the going of the first into the place of the
    /// expansion node.
    proof fn lemma_adopted_done(
        s0: &Self,
        s2: &Self,
        s3: &Self,
        s4: &Self,
        s5: &Self,
        enode: usize,
        base: usize,
        top: usize,
        w: usize,
    )
        requires
            s0.adopting_pre(enode, base, top),
            s0.grown_by(s2, w),
            s2.is_arr(w),
            !s2.retired(w),
            s2.copy_pre(s0.nodes()[enode as int]->narrow, w, s0.nodes()[enode as int]->level),
            s2.inv(
                base,
                Some((s0.nodes()[enode as int]->parent, s0.nodes()[enode as int]->parentpos as int)),
            ),
            s0.kept(s2),
            s0.same_lookups(s2),
            forall|a: usize| s0.valid(a) ==> #[trigger] s0.same_at(s2, a),
            s2.free(w),
            base <= w,
            w + 1 == s2.nodes().len(),
            s0.frees(s2),
            s3.copy_post(s2, s0.nodes()[enode as int]->narrow, w),
            s3.changed(
                s4,
                s0.nodes()[enode as int]->parent,
                s0.nodes()[enode as int]->parentpos as int,
            ),
            s4.nodes().len() == s3.nodes().len(),
            s4.metas() == s3.metas(),
            forall|a: usize| s3.valid(a) ==> #[trigger] s3.same_at(s4, a),
            s4.changed(
                s5,
                s0.nodes()[enode as int]->parent,
                s0.nodes()[enode as int]->parentpos as int,
            ),
            s5.nodes().len() == s4.nodes().len(),
            s5.metas() == s4.metas(),
            s5.slots(s0.nodes()[enode as int]->parent) == s4.slots(
                s0.nodes()[enode as int]->parent,
            ).update(
                s0.nodes()[enode as int]->parentpos as int,
                s0.nodes()[enode as int]->wide,
            ),
            forall|a: usize|
                s4.valid(a) && a != s0.nodes()[enode as int]->parent ==> #[trigger] s4.same_at(s5, a),
        ensures
            s5.adopted_post(s0, enode, base, top),
    {
        let par = s0.nodes()[enode as int]->parent;
        let ppos = s0.nodes()[enode as int]->parentpos as int;
        let narrow = s0.nodes()[enode as int]->narrow;
        let wx = s0.nodes()[enode as int]->wide;
        let hole = Some((par, ppos));
        assert(s0.node_ok(base, hole, par));
        assert(s0.slot_ok(base, hole, par, ppos));
        Self::lemma_rebase_down(s2, s3, base, hole, w);
        assert(s0.same_at(s2, par) && s0.same_at(s2, enode) && s0.same_at(s2, narrow) && s0.same_at(
            s2,
            wx,
        ));
        assert(s2.same_at(s3, par) && s2.same_at(s3, enode) && s2.same_at(s3, narrow) && s2.same_at(
            s3,
            wx,
        ));
        assert(s3.same_at(s4, par) && s3.same_at(s4, enode) && s3.same_at(s4, narrow) && s3.same_at(
            s4,
            wx,
        ));
        // nothing has changed between the copy and the last step
        assert(s4.slot_ok(base, hole, par, ppos)) by {
            assert(s3.node_ok(base, hole, par));
            assert(s3.slot_ok(base, hole, par, ppos));
        }
        assert(s3.step(s4, par, ppos));
        Self::lemma_step(s3, s4, base, hole, hole, par, ppos);
        Self::lemma_sim_resolve(s3, s4, par, ppos);
        // the wide array node named first goes into the slot
        assert(s2.free(wx));
        assert(s3.free(wx));
        assert(s4.free(wx)) by {
            assert forall|a: usize, j: int|
                s4.is_arr(a) && 0 <= j < s4.slots(a).len() implies #[trigger] s4.slots(a)[j]
                != wx by {
                assert(s3.same_at(s4, a));
                assert(s3.slots(a)[j] != wx);
            }
        }
        assert(s4.step(s5, par, ppos));
        assert(s5.child_path(par, ppos) == s0.child_path(par, ppos));
        assert(s4.same_at(s5, wx));
        assert(s4.same_at(s5, enode));
        assert(s5.slot_ok(base, None, par, ppos));
        Self::lemma_step(s4, s5, base, hole, None, par, ppos);
        Self::lemma_kept_trans(s0, s2, s3);
        Self::lemma_kept_trans(s0, s3, s4);
        Self::lemma_kept_trans(s0, s4, s5);
        // descents find what they found
        assert forall|x: usize, id: K::Id| s0.is_arr(x) implies #[trigger] s4.lookup_from(x, id)
            == s0.lookup_from(x, id) by {
            assert(s2.lookup_from(x, id) == s0.lookup_from(x, id));
            Self::lemma_below(s2, s3, w, x, id);
            assert(s2.nodes()[x as int].kept_as(s3.nodes()[x as int]));
            assert(s4.lookup_from(x, id) == s3.lookup_from(x, id));
        }
        assert forall|x: usize, id: K::Id| s4.is_arr(x) implies #[trigger] s5.lookup_from(x, id)
            == s4.lookup_from(x, id) by {
            Self::lemma_sim(s4, s5, par, ppos, id, wx);
            Self::lemma_sim(s4, s5, par, ppos, id, narrow);
            assert(s4.resolve(par, enode) == Target::<K::Id, V>::Down(narrow));
            assert(s5.resolve(par, wx) == Target::<K::Id, V>::Down(wx));
            assert(s4.lookup_from(wx, id) == s0.lookup_from(wx, id));
            assert(s4.lookup_from(narrow, id) == s0.lookup_from(narrow, id));
            Self::lemma_sim(s4, s5, par, ppos, id, x);
        }
        assert(s4.same_lookups(s5));
        assert(s0.same_lookups(s5)) by {
            assert forall|x: usize, id: K::Id| s0.is_arr(x) implies #[trigger] s5.lookup_from(
                x,
                id,
            ) == s0.lookup_from(x, id) by {
                assert(s0.nodes()[x as int].kept_as(s4.nodes()[x as int]));
                assert(s4.lookup_from(x, id) == s0.lookup_from(x, id));
            }
        }
        assert(s0.same_below(s5, base)) by {
            assert forall|a: usize| s0.valid(a) && a < base implies #[trigger] s0.same_at(s5, a) by {
                assert(s0.same_at(s2, a));
                assert(s2.same_at(s3, a));
                assert(s3.same_at(s4, a));
            }
        }
        assert(s0.same_above(s5, s0.depth(par))) by {
            assert forall|a: usize|
                s0.valid(a) && s0.nodes()[a as int] is ANode && s0.depth(a) < s0.depth(par)
                implies #[trigger] s0.same_at(s5, a) by {
                assert(s0.same_at(s2, a));
                assert(s2.same_at(s3, a));
                assert(s3.same_at(s4, a));
            }
        }
        assert forall|id: K::Id| #[trigger] s5.lookup_from(wx, id) == s0.lookup_from(narrow, id) by {
            assert(s5.lookup_from(wx, id) == s4.lookup_from(wx, id));
            assert(s4.lookup_from(wx, id) == s0.lookup_from(wx, id));
        }
        // nothing is left over but the second wide array node
        assert(s5.settled(base, top, w)) by {
            assert forall|x: usize| s5.valid(x) && x >= base implies #[trigger] s5.settled_at(
                x,
                top,
                w,
            ) by {
                assert(s4.same_at(s5, x) || x == par);
                assert(s3.same_at(s4, x));
                assert(s4.nodes()[x as int].kept_as(s5.nodes()[x as int]));
                assert(s5.metas()[x as int] == s3.metas()[x as int]);
                if s5.nodes()[x as int] is SNode {
                    assert(x != par);
                    let t = s5.nodes()[x as int].txn();
                    assert(s3.node_typed(x));
                    if t != par {
                        assert(s3.same_at(s4, t));
                        assert(s4.same_at(s5, t));
                    }
                    assert(s5.live_data(x) ==> s3.live_data(x));
                }
                assert(s5.live_arr(x) ==> s3.live_arr(x));
                if x < w && s3.live_data(x) {
                    assert(s0.same_at(s2, x));
                    assert(s2.same_at(s3, x));
                    let t = s0.nodes()[x as int].txn();
                    assert(s0.node_typed(x));
                    assert(s0.same_at(s2, t));
                    assert(s2.same_at(s3, t));
                    assert(s0.live_data(x));
                }
                if x < w {
                    assert(s0.same_at(s2, x));
                    assert(s2.same_at(s3, x));
                    assert(s0.settled_at(x, top, wx));
                    if x == wx {
                        assert(s5.slots(par)[ppos] == wx);
                        assert(s5.held(x));
                    } else if s0.held(x) {
                        s0.lemma_holder(x);
                        let (a, j) = s0.holder(x);
                        assert(s0.same_at(s2, a));
                        assert(s2.same_at(s3, a));
                        assert(s3.same_at(s4, a));
                        assert(s4.slots(a)[j] == x);
                        if a == par && j == ppos {
                            assert(x == enode);
                            assert(s5.nodes()[x as int] is ENode);
                        } else {
                            assert(s5.slots(a)[j] == x);
                            assert(s5.held(x));
                        }
                    }
                } else {
                    assert(s3.settled_at(x, w, NULL));
                    if s3.held(x) {
                        s3.lemma_holder(x);
                        let (a, j) = s3.holder(x);
                        assert(s3.same_at(s4, a));
                        assert(s4.slots(a)[j] == x);
                        if a == par && j == ppos {
                            assert(s3.slots(par)[ppos] == enode);
                        } else {
                            assert(s5.slots(a)[j] == x);
                            assert(s5.held(x));
                        }
                    }
                }
            }
        }
    }

    /// What `_freeze` asks for holds of the narrow array node of an
    /// expansion node that is ready to be completed.
    proof fn lemma_expansion_start(&self, enode: usize, base: usize, top: usize)
        requires
            self.expansion_pre(enode, base, top),
        ensures
            ({
                let par = self.nodes()[enode as int]->parent;
                let ppos = self.nodes()[enode as int]->parentpos as int;
                let narrow = self.nodes()[enode as int]->narrow;
                &&& narrow >= base
                &&& self.is_arr(narrow)
                &&& self.depth(par) < self.depth(narrow)
                &&& self.depth(narrow) <= 15
                &&& self.freezing(base, top, self.depth(narrow), narrow, NULL)
            }),
    {
        let par = self.nodes()[enode as int]->parent;
        let ppos = self.nodes()[enode as int]->parentpos as int;
        let narrow = self.nodes()[enode as int]->narrow;
        let hole = Some((par, ppos));
        assert(self.node_ok(base, hole, par));
        assert(self.slot_ok(base, hole, par, ppos));
        assert(self.node_typed(enode));
        assert(self.child_path(par, ppos).len() == self.path(par).len() + 1);
        assert(self.node_ok(base, hole, narrow));
        assert forall|x: usize| self.valid(x) && x >= base implies #[trigger] self.freezing_at(
            x,
            top,
            self.depth(narrow),
            narrow,
            NULL,
        ) by {
            assert(self.freezing_at(x, top, 0, narrow, NULL));
        }
    }

    /// After the narrow array node was frozen and the wide one made: what
    /// `_copy` asks for holds.
    proof fn lemma_widened(
        s0: &Self,
        s1: &Self,
        s2: &Self,
        enode: usize,
        base: usize,
        top: usize,
        w: usize,
    )
        requires
            s0.expansion_pre(enode, base, top),
            s1.freeze_post(
                s0,
                s0.nodes()[enode as int]->narrow,
                base,
                Some((s0.nodes()[enode as int]->parent, s0.nodes()[enode as int]->parentpos as int)),
                top,
            ),
            s1.grown_by(s2, w),
            !s2.valid(NULL),
            s2.is_arr(w),
            s2.slots(w).len() == WIDE,
            forall|j: int| 0 <= j < s2.slots(w).len() ==> #[trigger] s2.slots(w)[j] == NULL,
            s2.metas()[w as int] == (Meta {
                path: s0.path(s0.nodes()[enode as int]->narrow),
                retired: false,
                upto: 0,
            }),
        ensures
            s2.widened(s0, enode, base, top, w),
    {
        let par = s0.nodes()[enode as int]->parent;
        let ppos = s0.nodes()[enode as int]->parentpos as int;
        let narrow = s0.nodes()[enode as int]->narrow;
        let hole = Some((par, ppos));
        s0.lemma_expansion_start(enode, base, top);
        assert(s0.node_ok(base, hole, par));
        assert(s0.slot_ok(base, hole, par, ppos));
        assert(s1.settled(base, top, NULL)) by {
            assert forall|x: usize| s1.valid(x) && x >= base implies #[trigger] s1.settled_at(
                x,
                top,
                NULL,
            ) by {
                assert(s1.freezing_at(x, top, s0.depth(narrow), NULL, NULL));
                if s1.is_arr(x) && s1.retired(x) && s1.depth(x) < s0.depth(narrow) {
                    if s0.valid(x) {
                        assert(s0.nodes()[x as int].kept_as(s1.nodes()[x as int]));
                        assert(s0.same_at(s1, x));
                        assert(s0.freezing_at(x, top, 0, narrow, NULL));
                    }
                }
            }
        }
        assert(s0.same_at(s1, par));
        assert(s0.same_at(s1, enode));
        assert(s2.node_typed(w)) by {
            assert forall|j: int| 0 <= j < s2.slots(w).len() implies s2.slot_typed(
                #[trigger] s2.slots(w)[j],
            ) by {}
        }
        assert(s0.nodes()[narrow as int].kept_as(s1.nodes()[narrow as int]));
        assert forall|j: int| 0 <= j < s2.slots(w).len() implies #[trigger] s2.slot_ok(
            base,
            hole,
            w,
            j,
        ) by {}
        Self::lemma_alloc_arr(s1, s2, base, hole, w);
        s2.lemma_rebase_up(base, hole, w);
        assert forall|a: usize| s1.valid(a) implies #[trigger] s1.same_at(s2, a) by {}
        assert(s2.settled_at(w, top, w));
        Self::lemma_settled_grown(s1, s2, base, top, NULL, w);
        assert(s2.settled(w, w, NULL)) by {
            assert forall|x: usize| s2.valid(x) && x >= w implies #[trigger] s2.settled_at(
                x,
                w,
                NULL,
            ) by {}
        }
        Self::lemma_kept_trans(s0, s1, s2);
        Self::lemma_lookups_trans(s0, s1, s2);
        assert(s1.same_at(s2, narrow));
        assert(s1.same_at(s2, par));
        assert(s1.same_at(s2, enode));
        assert(s2.path(w).is_prefix_of(s2.path(narrow))) by {
            assert(s2.path(w) =~= s2.path(narrow).subrange(0, s2.path(w).len() as int));
        }
        assert forall|id1: K::Id, id2: K::Id|
            (s2.holds(narrow, id1) || s2.holds(w, id1)) && (s2.holds(narrow, id2) || s2.holds(
                w,
                id2,
            )) && id1 != id2 implies separable(K::hash_of(id1), K::hash_of(id2)) by {
            let j1 = s2.slot_for(w, id1);
            if 0 <= j1 < s2.slots(w).len() {
                assert(s2.slots(w)[j1] == NULL);
            }
            let j2 = s2.slot_for(w, id2);
            if 0 <= j2 < s2.slots(w).len() {
                assert(s2.slots(w)[j2] == NULL);
            }
            assert(s1.lookup_from(narrow, id1) == s0.lookup_from(narrow, id1));
            assert(s2.lookup_from(narrow, id1) == s1.lookup_from(narrow, id1));
            assert(s1.lookup_from(narrow, id2) == s0.lookup_from(narrow, id2));
            assert(s2.lookup_from(narrow, id2) == s1.lookup_from(narrow, id2));
            assert(s0.holds(narrow, id1));
            assert(s0.holds(narrow, id2));
        }
        assert(s0.frees(s2)) by {
            assert forall|c: usize| s0.valid(c) && #[trigger] s0.free(c) implies s2.free(c) by {
                assert(s1.free(c));
            }
        }
        assert(s0.same_below(s2, base)) by {
            assert forall|a: usize| s0.valid(a) && a < base implies #[trigger] s0.same_at(s2, a) by {
                assert(s0.same_at(s1, a));
                assert(s1.same_at(s2, a));
            }
        }
        assert(s0.same_above(s2, s0.depth(narrow))) by {
            assert forall|a: usize|
                s0.valid(a) && s0.nodes()[a as int] is ANode && s0.depth(a) < s0.depth(narrow)
                implies #[trigger] s0.same_at(s2, a) by {
                assert(s0.same_at(s1, a));
                assert(s1.same_at(s2, a));
            }
        }
    }

    /// What `_complete_expansion` leaves after the copy, the naming of the
    /// wide array node, and its going into the place of the expansion node.
    /// Between the last two steps the state is one in which the expansion
    /// can be completed anew.
    proof fn lemma_expansion_done(
        s0: &Self,
        s2: &Self,
        s3: &Self,
        s4: &Self,
        s5: &Self,
        enode: usize,
        base: usize,
        top: usize,
        w: usize,
    )
        requires
            s0.expansion_pre(enode, base, top),
            s2.widened(s0, enode, base, top, w),
            s3.copy_post(s2, s0.nodes()[enode as int]->narrow, w),
            s3.changed(
                s4,
                s0.nodes()[enode as int]->parent,
                s0.nodes()[enode as int]->parentpos as int,
            ),
            s4.nodes().len() == s3.nodes().len(),
            s4.metas() == s3.metas(),
            s4.slots(s0.nodes()[enode as int]->parent) == s3.slots(s0.nodes()[enode as int]->parent),
            s3.nodes()[enode as int].kept_as(s4.nodes()[enode as int]),
            s4.nodes()[enode as int]->wide == w,
            forall|a: usize| s3.valid(a) && a != enode ==> #[trigger] s3.same_at(s4, a),
            s4.changed(
                s5,
                s0.nodes()[enode as int]->parent,
                s0.nodes()[enode as int]->parentpos as int,
            ),
            s5.nodes().len() == s4.nodes().len(),
            s5.metas() == s4.metas(),
            s5.slots(s0.nodes()[enode as int]->parent) == s4.slots(
                s0.nodes()[enode as int]->parent,
            ).update(s0.nodes()[enode as int]->parentpos as int, w),
            forall|a: usize|
                s4.valid(a) && a != s0.nodes()[enode as int]->parent ==> #[trigger] s4.same_at(s5, a),
        ensures
            s4.adopting_pre(enode, base, top),
            s5.expansion_post(s0, enode, base, top),
    {
        let par = s0.nodes()[enode as int]->parent;
        let ppos = s0.nodes()[enode as int]->parentpos as int;
        let narrowptr = s0.nodes()[enode as int]->narrow;
        let hole = Some((par, ppos));
        s0.lemma_expansion_start(enode, base, top);
        assert(s0.node_ok(base, hole, par));
        assert(s0.slot_ok(base, hole, par, ppos));
        Self::lemma_rebase_down(s2, s3, base, hole, w);
        Self::lemma_settled_join(s2, s3, base, top, w);
        assert(s2.same_at(s3, par));
        assert(s2.same_at(s3, enode));
        assert(s2.same_at(s3, narrowptr));
        // only the `wide` of the expansion node has changed
        assert(s3.same_at(s4, par));
        assert(s4.slot_ok(base, hole, par, ppos)) by {
            assert(s3.node_ok(base, hole, par));
            assert(s3.slot_ok(base, hole, par, ppos));
        }
        assert(s3.step(s4, par, ppos));
        Self::lemma_step(s3, s4, base, hole, hole, par, ppos);
        Self::lemma_sim_resolve(s3, s4, par, ppos);
        Self::lemma_frees_step(s3, s4, par, ppos);
        assert(s3.freezing(base, top, 0, w, NULL)) by {
            assert forall|x: usize| s3.valid(x) && x >= base implies #[trigger] s3.freezing_at(
                x,
                top,
                0,
                w,
                NULL,
            ) by {
                assert(s3.settled_at(x, top, w));
            }
        }
        assert(s3.settled_at(par, top, w));
        assert(s3.settled_at(w, top, w));
        assert(s3.nodes()[par as int].kept_as(s4.nodes()[par as int]));
        assert(s3.nodes()[w as int].kept_as(s4.nodes()[w as int]));
        assert(s4.freezing_at(par, top, 0, w, NULL)) by {
            if s3.held(par) {
                assert(s4.held(par));
            }
        }
        Self::lemma_freezing_step(s3, s4, base, top, 0, w, NULL, w, NULL, par, ppos);
        // the wide array node goes into the slot
        assert(s2.frees(s3));
        assert(s3.free(w));
        assert(s4.free(w));
        assert(s4.step(s5, par, ppos));
        assert(s2.nodes()[w as int].kept_as(s3.nodes()[w as int]));
        assert(s5.child_path(par, ppos) == s0.child_path(par, ppos));
        assert(s4.same_at(s5, w));
        assert(s4.same_at(s5, enode));
        assert(s5.slot_ok(base, None, par, ppos));
        Self::lemma_step(s4, s5, base, hole, None, par, ppos);
        assert(s4.freezing_at(par, top, 0, w, NULL));
        assert(s4.freezing_at(w, top, 0, w, NULL));
        assert(s4.nodes()[par as int].kept_as(s5.nodes()[par as int]));
        assert(s5.slots(par)[ppos] == w);
        assert(s5.freezing_at(par, top, 0, NULL, NULL)) by {
            if s4.held(par) {
                assert(s5.held(par));
            }
        }
        assert(s5.freezing_at(w, top, 0, NULL, NULL));
        Self::lemma_freezing_step(s4, s5, base, top, 0, w, NULL, NULL, NULL, par, ppos);
        assert(s5.settled(base, top, NULL)) by {
            assert forall|x: usize| s5.valid(x) && x >= base implies #[trigger] s5.settled_at(
                x,
                top,
                NULL,
            ) by {
                assert(s5.freezing_at(x, top, 0, NULL, NULL));
            }
        }
        // descents: what the wide array node holds is what the narrow held
        assert forall|id: K::Id| #[trigger] s2.lookup_from(w, id) is None by {
            let j = s2.slot_for(w, id);
            if 0 <= j < s2.slots(w).len() {
                assert(s2.slots(w)[j] == NULL);
            }
        }
        assert forall|id: K::Id| #[trigger]
            s4.lookup_from(w, id) == s0.lookup_from(narrowptr, id) && s4.lookup_from(narrowptr, id)
                == s0.lookup_from(narrowptr, id) by {
            Self::lemma_below(s2, s3, w, narrowptr, id);
            assert(s4.lookup_from(w, id) == s3.lookup_from(w, id));
            assert(s4.lookup_from(narrowptr, id) == s3.lookup_from(narrowptr, id));
            assert(s2.lookup_from(narrowptr, id) == s0.lookup_from(narrowptr, id));
            assert(s3.lookup_from(w, id) == if s2.holds(narrowptr, id) {
                s2.lookup_from(narrowptr, id)
            } else {
                s2.lookup_from(w, id)
            });
        }
        assert forall|x: usize, id: K::Id| s4.is_arr(x) implies #[trigger] s5.lookup_from(x, id)
            == s4.lookup_from(x, id) by {
            Self::lemma_sim(s4, s5, par, ppos, id, w);
            assert(s4.resolve(par, enode) == Target::<K::Id, V>::Down(narrowptr));
            assert(s5.resolve(par, w) == Target::<K::Id, V>::Down(w));
            Self::lemma_sim(s4, s5, par, ppos, id, x);
        }
        assert(s4.same_lookups(s5));
        assert(s0.same_lookups(s5)) by {
            assert forall|x: usize, id: K::Id| s0.is_arr(x) implies #[trigger] s5.lookup_from(
                x,
                id,
            ) == s0.lookup_from(x, id) by {
                assert(s0.nodes()[x as int].kept_as(s2.nodes()[x as int]));
                assert(s2.lookup_from(x, id) == s0.lookup_from(x, id));
                Self::lemma_below(s2, s3, w, x, id);
                assert(s2.nodes()[x as int].kept_as(s3.nodes()[x as int]));
                assert(s4.lookup_from(x, id) == s3.lookup_from(x, id));
                assert(s3.nodes()[x as int].kept_as(s4.nodes()[x as int]));
                assert(s5.lookup_from(x, id) == s4.lookup_from(x, id));
            }
        }
        Self::lemma_kept_trans(s0, s2, s3);
        Self::lemma_kept_trans(s0, s3, s4);
        Self::lemma_kept_trans(s0, s4, s5);
        assert(s0.same_below(s5, base)) by {
            assert forall|a: usize| s0.valid(a) && a < base implies #[trigger] s0.same_at(s5, a) by {
                assert(s0.same_at(s2, a));
                assert(s2.same_at(s3, a));
            }
        }
        assert(s0.same_above(s5, s0.depth(par))) by {
            assert forall|a: usize|
                s0.valid(a) && s0.nodes()[a as int] is ANode && s0.depth(a) < s0.depth(par)
                implies #[trigger] s0.same_at(s5, a) by {
                assert(s0.same_at(s2, a));
                assert(s2.same_at(s3, a));
            }
        }
        assert(s0.frees(s5)) by {
            assert forall|c: usize| s0.valid(c) && #[trigger] s0.free(c) implies s5.free(c) by {
                assert(s2.free(c));
                assert(s3.free(c));
                assert(s4.free(c));
            }
        }
        assert forall|id: K::Id| #[trigger] s5.lookup_from(w, id) == s0.lookup_from(
            narrowptr,
            id,
        ) by {
            assert(s5.lookup_from(w, id) == s4.lookup_from(w, id));
        }        assert(s4.apart_below(narrowptr)) by {
            assert forall|id1: K::Id, id2: K::Id|
                #![trigger s4.lookup_from(narrowptr, id1), s4.lookup_from(narrowptr, id2)]
                s4.holds(narrowptr, id1) && s4.holds(narrowptr, id2) && id1 != id2 implies s4.parts(
                narrowptr,
                K::hash_of(id1),
                K::hash_of(id2),
            ) by {
                assert(s4.lookup_from(w, id1) == s0.lookup_from(narrowptr, id1));
                assert(s4.lookup_from(w, id2) == s0.lookup_from(narrowptr, id2));
                assert(s0.holds(narrowptr, id1) && s0.holds(narrowptr, id2));
                assert(s0.parts(narrowptr, K::hash_of(id1), K::hash_of(id2)));
                assert forall|j: int|
                    !#[trigger] s0.parts_at(narrowptr, K::hash_of(id1), K::hash_of(id2), j) by {}
            }
        }
    }

    /// Puts `val` under `key` into the sub-trie at the array node `cur`.
    ///
    /// An empty slot takes a new data node. A data node of the same key has
    /// its replacement installed in its `txn` and then in the slot. A data
    /// node of another key makes room: in a wide array node both go into a
    /// new narrow one a level down; a narrow array node is expanded into a
    /// wide one, in which the insertion starts over.
    ///
    /// Where the slot holds a frozen form, nothing is changed and the
    /// answer is `false`; where it holds an expansion node, the expansion
    /// is completed and the answer is `false`: the caller starts over.
    pub(crate) fn _insert(
        &mut self,
        key: K,
        val: V,
        h: u64,
        lev: u8,
        cur: usize,
        prev: Option<usize>,
        Ghost(base): Ghost<usize>,
        Ghost(top): Ghost<usize>,
    ) -> (r: bool)
        requires
            old(self).insert_pre(key, h, lev, cur, prev, base, top) || old(self).giving_up_pre(
                key,
                h,
                lev,
                cur,
                base,
                top,
            ),
        ensures
            old(self).insert_pre(key, h, lev, cur, prev, base, top) ==> r && final(self).insert_post(
                old(self),
                key,
                val,
                cur,
                prev,
                base,
                top,
            ),
            old(self).blocked(cur, key.id()) ==> !r && *final(self) == *old(self),
            old(self).expanding_at(cur, key.id()) ==> !r,
            old(self).expanding_at(cur, key.id()) && old(self).expansion_pre(
                old(self).slots(cur)[old(self).slot_for(cur, key.id())],
                base,
                top,
            ) ==> final(self).expansion_post(
                old(self),
                old(self).slots(cur)[old(self).slot_for(cur, key.id())],
                base,
                top,
            ),
            old(self).expanding_at(cur, key.id()) && old(self).adopting_pre(
                old(self).slots(cur)[old(self).slot_for(cur, key.id())],
                base,
                top,
            ) ==> final(self).adopted_post(
                old(self),
                old(self).slots(cur)[old(self).slot_for(cur, key.id())],
                base,
                top,
            ),
        decreases
                16 - old(self).depth(cur),
                (if old(self).slots(cur).len() == NARROW {
                    4int
                } else {
                    1int
                }),
                0int,
    {
        let ghost s0 = *self;
        let ghost live = s0.insert_pre(key, h, lev, cur, prev, base, top);
        proof {
            if live {
                s0.lemma_way_is_free(key, h, lev, cur, prev, base, top);
                assert(s0.node_ok(base, None, cur));
            }
            assert(s0.node_typed(cur));
        }
        let len = self.get_ary_length(cur);
        let pos = slot_of(h, lev, len);
        let oldptr = self.get_oldptr(cur, pos);
        proof {
            if live {
                assert(s0.slot_ok(base, None, cur, pos as int));
            }
            assert(s0.slot_typed(oldptr));
        }
        if self.is_oldptr_null(cur, pos) {
            let t = self.allocate(Node::NoTxn, Ghost(Meta::blank()));
            let ghost s1 = *self;
            let sn = self.allocate(
                Node::SNode { hash: h, key: key, val: val, txn: t },
                Ghost(Meta::blank()),
            );
            let ghost s2 = *self;
            if self.cas_slot(cur, pos, oldptr, sn) == oldptr {
                proof {
                    assert(s2.changed(self, cur, pos as int));
                    Self::lemma_stored(&s0, &s1, &s2, self, key, val, cur, prev, base, top, t, sn);
                }
                true
            } else {
                self._insert(key, val, h, lev, cur, prev, Ghost(base), Ghost(top))
            }
        } else {
            let kind = self.kind_at(oldptr);
            proof {
                if live {
                    assert(s0.node_ok(base, None, oldptr));
                }
                assert(s0.node_typed(oldptr));
            }
            if kind == Kind::Array {
                proof {
                    s0.lemma_descend(key, h, lev, cur, prev, base, top);
                }
                let r = self._insert(key, val, h, lev + 4, oldptr, Some(cur), Ghost(base), Ghost(top));
                proof {
                    Self::lemma_descended(&s0, self, key, val, h, lev, cur, prev, base, top);
                }
                r
            } else if kind == Kind::Data {
                let txnptr = self.get_txn(oldptr);
                let tkind = self.kind_at(txnptr);
                if tkind == Kind::NoTxn {
                    match self.get_data(oldptr) {
                        Some((oh, okey, oval)) => {
                            if okey.same(&key) {
                                let t = self.allocate(Node::NoTxn, Ghost(Meta::blank()));
                                let ghost s1 = *self;
                                let sn = self.allocate(
                                    Node::SNode { hash: h, key: key, val: val, txn: t },
                                    Ghost(Meta::blank()),
                                );
                                let ghost s2 = *self;
                                if self.cas_txn(oldptr, txnptr, sn) == txnptr {
                                    self.cas_slot(cur, pos, oldptr, sn);
                                    proof {
                                        assert(s2.changed(self, cur, pos as int));
                                        Self::lemma_stored(
                                            &s0,
                                            &s1,
                                            &s2,
                                            self,
                                            key,
                                            val,
                                            cur,
                                            prev,
                                            base,
                                            top,
                                            t,
                                            sn,
                                        );
                                    }
                                    true
                                } else {
                                    self._insert(key, val, h, lev, cur, prev, Ghost(base), Ghost(top))
                                }
                            } else if len == NARROW {
                                match prev {
                                    Some(prevref) => {
                                        proof {
                                            assert(s0.node_ok(base, None, prevref));
                                            assert(s0.node_typed(prevref));
                                        }
                                        let plen = self.get_ary_length(prevref);
                                        let ppos = slot_of(h, lev - 4, plen);
                                        let en = self.allocate(
                                            Node::ENode {
                                                parent: prevref,
                                                parentpos: ppos as u8,
                                                narrow: cur,
                                                hash: h,
                                                level: lev,
                                                wide: NULL,
                                            },
                                            Ghost(Meta::blank()),
                                        );
                                        let ghost s1 = *self;
                                        if self.cas_slot(prevref, ppos, cur, en) == cur {
                                            self.mark_retired(Ghost(cur));
                                            let ghost s2 = *self;
                                            proof {
                                                assert(s1.changed(&s2, prevref, ppos as int));
                                                Self::lemma_expand_begin(
                                                    &s0,
                                                    &s1,
                                                    &s2,
                                                    key,
                                                    h,
                                                    lev,
                                                    cur,
                                                    prevref,
                                                    base,
                                                    top,
                                                    en,
                                                );
                                            }
                                            self._complete_expansion(en, Ghost(base), Ghost(top));
                                            let ghost s3 = *self;
                                            let wide = self.get_enode__wide(en);
                                            proof {
                                                Self::lemma_expand_retry(
                                                    &s0,
                                                    &s2,
                                                    &s3,
                                                    key,
                                                    h,
                                                    lev,
                                                    cur,
                                                    prevref,
                                                    base,
                                                    top,
                                                    en,
                                                );
                                            }
                                            let r = self._insert(
                                                key,
                                                val,
                                                h,
                                                lev,
                                                wide,
                                                Some(prevref),
                                                Ghost(base),
                                                Ghost(top),
                                            );
                                            proof {
                                                Self::lemma_expand_end(
                                                    &s0,
                                                    &s2,
                                                    &s3,
                                                    self,
                                                    key,
                                                    val,
                                                    h,
                                                    lev,
                                                    cur,
                                                    prevref,
                                                    base,
                                                    top,
                                                    en,
                                                );
                                            }
                                            r
                                        } else {
                                            self._insert(key, val, h, lev, cur, prev, Ghost(base), Ghost(top))
                                        }
                                    },
                                    None => false,
                                }
                            } else {
                                let t1 = self.allocate(Node::NoTxn, Ghost(Meta::blank()));
                                let ghost s1 = *self;
                                let t2 = self.allocate(Node::NoTxn, Ghost(Meta::blank()));
                                let ghost s2 = *self;
                                proof {
                                    Self::lemma_pair_begin(
                                        &s0,
                                        &s1,
                                        &s2,
                                        key,
                                        h,
                                        lev,
                                        cur,
                                        prev,
                                        base,
                                        top,
                                        t1,
                                        t2,
                                    );
                                }
                                let an = self._create_anode(
                                    Node::SNode { hash: oh, key: okey, val: oval, txn: t1 },
                                    Node::SNode { hash: h, key: key, val: val, txn: t2 },
                                    lev + 4,
                                    Ghost(base),
                                    Ghost(None),
                                    Ghost(s0.child_path(cur, pos as int)),
                                    Ghost(top),
                                );
                                let ghost s3 = *self;
                                proof {
                                    assert(s2.same_at(&s3, cur));
                                    assert(s2.same_at(&s3, oldptr));
                                }
                                if self.cas_txn(oldptr, txnptr, an) == txnptr {
                                    self.cas_slot(cur, pos, oldptr, an);
                                    proof {
                                        assert(s3.changed(self, cur, pos as int));
                                        Self::lemma_pair_end(
                                            &s0,
                                            &s2,
                                            &s3,
                                            self,
                                            key,
                                            val,
                                            h,
                                            lev,
                                            cur,
                                            prev,
                                            base,
                                            top,
                                            an,
                                        );
                                    }
                                    true
                                } else {
                                    self._insert(key, val, h, lev, cur, prev, Ghost(base), Ghost(top))
                                }
                            }
                        },
                        None => false,
                    }
                } else if tkind == Kind::DataFrozen {
                    false
                } else {
                    self.cas_slot(cur, pos, oldptr, txnptr);
                    self._insert(key, val, h, lev, cur, prev, Ghost(base), Ghost(top))
                }
            } else {
                if kind == Kind::Expansion {
                    proof {
                        let par = s0.nodes()[oldptr as int]->parent;
                        let ppos = s0.nodes()[oldptr as int]->parentpos as int;
                        let narrow = s0.nodes()[oldptr as int]->narrow;
                        let hole = Some((par, ppos));
                        assert(s0.slots(par)[ppos] == s0.slots(cur)[pos as int]);
                        assert(par == cur);
                        assert(s0.node_ok(base, hole, par));
                        assert(s0.slot_ok(base, hole, par, ppos));
                        assert(s0.child_path(par, ppos).len() == s0.depth(par) + 1);
                        assert(s0.depth(narrow) == s0.depth(cur) + 1);
                    }
                    self._complete_expansion(oldptr, Ghost(base), Ghost(top));
                }
                false
            }
        }
    }

    /// After a new data node for the key went into the slot of `cur` for
    /// the key, which was empty or held a data node of the key that now has
    /// the new one in its `txn`: what `_insert` leaves.
    pub(crate) proof fn lemma_stored(
        s0: &Self,
        s1: &Self,
        s2: &Self,
        s3: &Self,
        key: K,
        val: V,
        cur: usize,
        prev: Option<usize>,
        base: usize,
        top: usize,
        t: usize,
        sn: usize,
    )
        requires
            s0.insert_pre(
                key,
                K::hash_of(key.id()),
                (4 * s0.depth(cur)) as u8,
                cur,
                prev,
                base,
                top,
            ),
            0 <= s0.slot_for(cur, key.id()) < s0.slots(cur).len(),
            s0.grown_by(s1, t),
            !s1.valid(NULL),
            s1.nodes()[t as int] is NoTxn,
            s1.grown_by(s2, sn),
            !s2.valid(NULL),
            s2.nodes()[sn as int] == (Node::SNode {
                hash: K::hash_of(key.id()),
                key: key,
                val: val,
                txn: t,
            }),
            s2.changed(s3, cur, s0.slot_for(cur, key.id())),
            s3.nodes().len() == s2.nodes().len(),
            s3.slots(cur)[s0.slot_for(cur, key.id())] == sn,
            ({
                let x0 = s0.slots(cur)[s0.slot_for(cur, key.id())];
                x0 == NULL || (s0.valid(x0) && s0.nodes()[x0 as int] is SNode
                    && s0.nodes()[x0 as int]->SNode_key.id() == key.id() && s3.nodes()[x0 as int].txn()
                    == sn)
            }),
        ensures
            s3.insert_post(s0, key, val, cur, prev, base, top),
    {
        let pos = s0.slot_for(cur, key.id());
        let x0 = s0.slots(cur)[pos];
        let h = K::hash_of(key.id());
        assert(s0.node_ok(base, None, cur));
        assert(s0.node_typed(cur));
        assert(s0.slot_ok(base, None, cur, pos));
        assert(s0.slot_typed(x0));
        Self::lemma_on_path_push(h, s0.path(cur), s0.slots(cur).len() == WIDE, pos);
        assert(s1.node_typed(t));
        Self::lemma_alloc_plain(s0, s1, base, None, t);
        assert(s2.node_typed(sn));
        Self::lemma_alloc_plain(s1, s2, base, None, sn);
        Self::lemma_kept_trans(s0, s1, s2);
        Self::lemma_lookups_trans(s0, s1, s2);
        Self::lemma_frees_trans(s0, s1, s2);
        assert forall|a: usize| s0.valid(a) implies #[trigger] s0.same_at(s2, a) by {
            assert(s0.same_at(s1, a));
            assert(s1.same_at(s2, a));
        }
        assert(s0.same_at(s2, cur));
        assert(s3.child_path(cur, pos) == s0.child_path(cur, pos));
        assert(s3.nodes()[sn as int] == s2.nodes()[sn as int]);
        assert(s3.nodes()[t as int] == s2.nodes()[t as int]);
        if x0 != NULL {
            assert(s0.same_at(s2, x0));
            assert(s0.node_typed(x0));
            assert(!s3.live_data(x0));
        }
        assert(s3.slot_ok(base, None, cur, pos));
        assert(s2.step(s3, cur, pos));
        Self::lemma_step(s2, s3, base, None, None, cur, pos);
        Self::lemma_settled_but(s0, s2, base, top, sn);
        Self::lemma_insert_wrap(s0, s2, s3, key, val, cur, prev, base, top, pos);
    }

    /// What the descent into the array node in the slot of `cur` for the
    /// key asks for holds.
    pub(crate) proof fn lemma_descend(
        &self,
        key: K,
        h: u64,
        lev: u8,
        cur: usize,
        prev: Option<usize>,
        base: usize,
        top: usize,
    )
        requires
            self.insert_pre(key, h, lev, cur, prev, base, top),
            0 <= self.slot_for(cur, key.id()) < self.slots(cur).len(),
            self.is_arr(self.slots(cur)[self.slot_for(cur, key.id())]),
        ensures
            lev + 4 <= 60,
            self.insert_pre(
                key,
                h,
                (lev + 4) as u8,
                self.slots(cur)[self.slot_for(cur, key.id())],
                Some(cur),
                base,
                top,
            ),
            self.depth(self.slots(cur)[self.slot_for(cur, key.id())]) == self.depth(cur) + 1,
    {
        let pos = self.slot_for(cur, key.id());
        let child = self.slots(cur)[pos];
        assert(self.node_ok(base, None, cur));
        assert(self.node_typed(cur));
        assert(self.slot_ok(base, None, cur, pos));
        assert(self.node_ok(base, None, child));
        assert(self.child_path(cur, pos).len() == self.depth(cur) + 1);
        Self::lemma_on_path_push(h, self.path(cur), self.slots(cur).len() == WIDE, pos);
        assert(self.resolve(cur, child) == Target::<K::Id, V>::Down(child));
        assert forall|id: K::Id| #[trigger] self.holds(child, id) implies self.holds(cur, id)
            && self.slot_for(cur, id) == pos by {
            self.lemma_found_up(base, None, cur, pos, child, id);
        }
        let d = self.depth(cur);
        assert forall|id1: K::Id, id2: K::Id|
            #![trigger self.lookup_from(child, id1), self.lookup_from(child, id2)]
            self.holds(child, id1) && self.holds(child, id2) && id1 != id2 implies self.parts(
            child,
            K::hash_of(id1),
            K::hash_of(id2),
        ) by {
            let h1 = K::hash_of(id1);
            let h2 = K::hash_of(id2);
            assert(self.holds(cur, id1) && self.holds(cur, id2));
            assert(self.parts(cur, h1, h2));
            assert(self.slot_for(cur, id1) == pos && self.slot_for(cur, id2) == pos);
            if !separable(h1, h2) {
                let j = choose|j: int| #[trigger] self.parts_at(cur, h1, h2, j);
                assert(!groups_differ(h1, h2, d));
                assert(self.next(cur, h1) == child);
                assert(self.parts_at(child, h1, h2, j));
            }
        }
        assert forall|id: K::Id| #[trigger] self.holds(child, id) && id != key.id() implies self.parts(
            child,
            K::hash_of(id),
            h,
        ) || self.makes_room(child, key.id(), K::hash_of(id)) by {
            let hi = K::hash_of(id);
            assert(self.holds(cur, id));
            assert(self.parts(cur, hi, h) || self.makes_room(cur, key.id(), hi));
            assert(self.slot_for(cur, id) == pos);
            if separable(hi, h) {
            } else if self.parts(cur, hi, h) {
                let j = choose|j: int| #[trigger] self.parts_at(cur, hi, h, j);
                assert(!groups_differ(hi, h, d));
                assert(self.next(cur, hi) == child);
                assert(self.parts_at(child, hi, h, j));
            } else {
                let j = choose|j: int| #[trigger] self.room_at(cur, key.id(), hi, j);
                assert(!self.collides(cur, key.id()));
                assert(!groups_differ(hi, h, d));
                assert(self.next(cur, h) == child);
                assert(self.room_at(child, key.id(), hi, j));
            }
        }
    }

    /// What `_insert` leaves at `cur` after the descent into the array node
    /// in its slot for the key.
    pub(crate) proof fn lemma_descended(
        s0: &Self,
        s9: &Self,
        key: K,
        val: V,
        h: u64,
        lev: u8,
        cur: usize,
        prev: Option<usize>,
        base: usize,
        top: usize,
    )
        requires
            s0.insert_pre(key, h, lev, cur, prev, base, top),
            0 <= s0.slot_for(cur, key.id()) < s0.slots(cur).len(),
            s0.is_arr(s0.slots(cur)[s0.slot_for(cur, key.id())]),
            s9.insert_post(
                s0,
                key,
                val,
                s0.slots(cur)[s0.slot_for(cur, key.id())],
                Some(cur),
                base,
                top,
            ),
        ensures
            s9.insert_post(s0, key, val, cur, prev, base, top),
    {
        let pos = s0.slot_for(cur, key.id());
        let d = s0.depth(cur);
        s0.lemma_descend(key, h, lev, cur, prev, base, top);
        let c2 = s9.slots(cur)[pos];
        assert(s0.nodes()[cur as int].kept_as(s9.nodes()[cur as int]));
        assert(s9.child_path(cur, pos).len() == d + 1);
        assert(s9.resolve(cur, c2) == Target::<K::Id, V>::Down(c2));
        match prev {
            Some(p) => {
                assert(s0.same_at(s9, p));
                Self::lemma_refl(s0);
                Self::lemma_above_trans(s0, s0, s9, s0.depth(p), d, d);
            },
            None => {},
        }
        assert(s9.path(cur) == s0.path(cur));
        assert(s9.depth(c2) == d + 1);
        assert(d < 15) by {
            assert(s9.node_ok(base, None, c2));
        }
        assert forall|j: int| #[trigger] s0.turn_from(cur, key.id(), j) implies s9.run_from(
            cur,
            h,
            j,
        ) by {
            assert(!s0.collides(cur, key.id()));
            assert(s0.next(cur, h) == s0.slots(cur)[pos]);
            assert(s0.turn_from(s0.slots(cur)[pos], key.id(), j));
            assert(s9.run_from(c2, h, j));
            assert(s9.next(cur, h) == c2);
        }
        assert forall|id: K::Id| #[trigger]
            s9.lookup_from(cur, id) == if id == key.id() {
                Some(val)
            } else {
                s0.lookup_from(cur, id)
            } by {
            if id == key.id() {
                assert(s9.slot_for(cur, id) == pos);
                assert(s9.lookup_from(cur, id) == s9.follow(s9.resolve(cur, c2), d, id));
                assert(s9.lookup_from(c2, id) == Some(val));
            }
        }
    }

    /// The state in which the expansion node `en` has taken the place of the
    /// narrow array node `cur` in its slot of `p`.
    pub open spec fn expanding(
        &self,
        before: &Self,
        key: K,
        cur: usize,
        p: usize,
        base: usize,
        top: usize,
        en: usize,
    ) -> bool {
        let ppos = before.slot_for(p, key.id());
        &&& self.expansion_pre(en, base, top)
        &&& self.nodes()[en as int]->parent == p
        &&& self.nodes()[en as int]->parentpos == ppos
        &&& self.nodes()[en as int]->narrow == cur
        &&& !before.valid(en)
        &&& before.kept(self)
        &&& before.same_lookups(self)
        &&& before.frees(self)
        &&& before.same_below(self, base)
        &&& before.same_above(self, before.depth(p))
        &&& self.metas()[p as int] == before.metas()[p as int]
        &&& self.slots(p) == before.slots(p).update(ppos, en)
    }

    /// After the expansion node `en` for the narrow array node `cur` went
    /// into the slot of `p` that held `cur`: what `_complete_expansion` asks
    /// for holds.
    pub(crate) proof fn lemma_expand_begin(
        s0: &Self,
        s1: &Self,
        s2: &Self,
        key: K,
        h: u64,
        lev: u8,
        cur: usize,
        p: usize,
        base: usize,
        top: usize,
        en: usize,
    )
        requires
            s0.insert_pre(key, h, lev, cur, Some(p), base, top),
            s0.slots(cur).len() == NARROW,
            0 <= s0.slot_for(p, key.id()) < s0.slots(p).len(),
            s0.grown_by(s1, en),
            !s1.valid(NULL),
            s1.nodes()[en as int] == (Node::<K, V>::ENode {
                parent: p,
                parentpos: s0.slot_for(p, key.id()) as u8,
                narrow: cur,
                hash: h,
                level: lev,
                wide: NULL,
            }),
            s1.changed(s2, p, s0.slot_for(p, key.id())),
            s2.nodes().len() == s1.nodes().len(),
            s2.slots(p)[s0.slot_for(p, key.id())] == en,
            s2.metas()[p as int] == s1.metas()[p as int],
            s2.nodes()[cur as int] == s1.nodes()[cur as int],
            s2.metas()[cur as int] == (Meta { retired: true, upto: 0, ..s1.metas()[cur as int] }),
        ensures
            s2.expanding(s0, key, cur, p, base, top, en),
    {
        let ppos = s0.slot_for(p, key.id());
        let hole = Some((p, ppos));
        assert(s0.node_ok(base, None, p));
        assert(s0.node_typed(p));
        assert(s0.slot_ok(base, None, p, ppos));
        assert(s0.node_ok(base, None, cur));
        assert(s0.node_typed(cur));
        assert(s0.child_path(p, ppos).len() == s0.depth(p) + 1);
        assert(s1.node_typed(en));
        Self::lemma_alloc_plain(s0, s1, base, None, en);
        assert(s0.same_at(s1, cur));
        assert(s0.same_at(s1, p));
        assert(s1.node_ok(base, None, cur));
        assert forall|j: int| 0 <= j < s1.slots(cur).len() implies #[trigger] s2.slot_ok(
            base,
            hole,
            cur,
            j,
        ) by {
            assert(s1.slot_ok(base, None, cur, j));
            Self::lemma_slot_retired(s1, s2, base, None, hole, cur, j);
        }
        assert(s2.child_path(p, ppos) == s0.child_path(p, ppos));
        assert(s2.slot_ok(base, hole, p, ppos));
        assert(s1.step(s2, p, ppos));
        Self::lemma_step(s1, s2, base, None, hole, p, ppos);
        assert(s1.resolve(p, cur) == Target::<K::Id, V>::Down(cur));
        assert(s2.resolve(p, en) == Target::<K::Id, V>::Down(cur));
        Self::lemma_sim_resolve(s1, s2, p, ppos);
        Self::lemma_kept_trans(s0, s1, s2);
        Self::lemma_lookups_trans(s0, s1, s2);
        assert forall|a: usize| s0.valid(a) implies #[trigger] s0.same_at(s1, a) by {}
        Self::lemma_settled_grown(s0, s1, base, top, NULL, NULL);
        assert(s1.freezing(base, top, 0, NULL, NULL)) by {
            assert forall|x: usize| s1.valid(x) && x >= base implies #[trigger] s1.freezing_at(
                x,
                top,
                0,
                NULL,
                NULL,
            ) by {
                assert(s1.settled_at(x, top, NULL));
            }
        }
        assert(s1.settled_at(p, top, NULL));
        assert(s1.settled_at(cur, top, NULL));
        assert(s1.held(cur)) by {
            assert(s1.slots(p)[ppos] == cur);
        }
        Self::lemma_freezing_step(s1, s2, base, top, 0, NULL, NULL, cur, NULL, p, ppos);
        assert(s2.fresh(cur)) by {
            assert forall|j: int| 0 <= j < s2.slots(cur).len() implies s2.plain(
                #[trigger] s2.slots(cur)[j],
            ) by {
                assert(s1.slot_ok(base, None, cur, j));
                let c = s1.slots(cur)[j];
                assert(s1.node_typed(cur));
                assert(s1.slot_typed(c));
                if c != NULL {
                    assert(s1.nodes()[c as int].kept_as(s2.nodes()[c as int]));
                }
            }
        }
        assert(s0.frees(s2)) by {
            assert forall|c: usize| s0.valid(c) && #[trigger] s0.free(c) implies s2.free(c) by {
                assert(s1.free(c));
            }
        }
        assert(s0.same_below(s2, base)) by {
            assert forall|a: usize| s0.valid(a) && a < base implies #[trigger] s0.same_at(s2, a) by {
                assert(s0.same_at(s1, a));
            }
        }
        assert(s0.same_above(s2, s0.depth(p))) by {
            assert forall|a: usize|
                s0.valid(a) && s0.nodes()[a as int] is ANode && s0.depth(a) < s0.depth(p)
                implies #[trigger] s0.same_at(s2, a) by {
                assert(s0.same_at(s1, a));
            }
        }
        assert(s2.slots(p) =~= s0.slots(p).update(ppos, en));
        assert(s2.nodes()[en as int] == s1.nodes()[en as int]);
        assert forall|id1: K::Id, id2: K::Id|
            #![trigger s2.lookup_from(cur, id1), s2.lookup_from(cur, id2)]
            s2.holds(cur, id1) && s2.holds(cur, id2) && id1 != id2 implies separable(
            K::hash_of(id1),
            K::hash_of(id2),
        ) by {
            assert(s0.holds(cur, id1));
            assert(s0.holds(cur, id2));
        }
    }

    /// After the expansion: the insertion can start over in the wide array
    /// node that stands where `cur` stood.
    pub(crate) proof fn lemma_expand_retry(
        s0: &Self,
        s2: &Self,
        s3: &Self,
        key: K,
        h: u64,
        lev: u8,
        cur: usize,
        p: usize,
        base: usize,
        top: usize,
        en: usize,
    )
        requires
            s0.insert_pre(key, h, lev, cur, Some(p), base, top),
            s0.slots(cur).len() == NARROW,
            0 <= s0.slot_for(p, key.id()) < s0.slots(p).len(),
            s2.expanding(s0, key, cur, p, base, top, en),
            s3.expansion_post(s2, en, base, top),
        ensures
            s3.insert_pre(key, h, lev, s3.nodes()[en as int]->wide, Some(p), base, top),
            s3.depth(s3.nodes()[en as int]->wide) == s0.depth(cur),
            s3.slots(s3.nodes()[en as int]->wide).len() == WIDE,
    {
        let ppos = s0.slot_for(p, key.id());
        let wide = s3.nodes()[en as int]->wide;
        let id0 = key.id();
        assert(s0.node_ok(base, None, p));
        assert(s0.slot_ok(base, None, p, ppos));
        assert(s0.nodes()[p as int].kept_as(s2.nodes()[p as int]));
        assert(s2.nodes()[p as int].kept_as(s3.nodes()[p as int]));
        assert(s3.slot_for(p, id0) == ppos);
        assert(s3.slots(p)[ppos] == wide);
        assert(s0.nodes()[cur as int].kept_as(s2.nodes()[cur as int]));
        assert forall|id: K::Id| #[trigger] s3.lookup_from(wide, id) == s0.lookup_from(cur, id) by {
            assert(s2.lookup_from(cur, id) == s0.lookup_from(cur, id));
        }
        assert(s3.admits_below(wide, id0)) by {
            assert forall|id: K::Id| #[trigger] s3.holds(wide, id) && id != id0 implies s3.parts(
                wide,
                K::hash_of(id),
                K::hash_of(id0),
            ) by {
                let hi = K::hash_of(id);
                assert(s0.holds(cur, id));
                assert(s0.parts(cur, hi, h) || s0.makes_room(cur, id0, hi));
                assert(s3.path(wide) == s0.path(cur));
                assert(s3.node_ok(base, None, wide));
                if separable(hi, h) {
                } else if s0.parts(cur, hi, h) {
                    let j = choose|j: int| #[trigger] s0.parts_at(cur, hi, h, j);
                    assert(false);
                } else {
                    let j = choose|j: int| #[trigger] s0.room_at(cur, id0, hi, j);
                    assert(j == s0.depth(cur));
                    assert(s3.parts_at(wide, hi, h, j));
                }
            }
        }
        assert(s3.apart_below(wide)) by {
            assert forall|id1: K::Id, id2: K::Id|
                #![trigger s3.lookup_from(wide, id1), s3.lookup_from(wide, id2)]
                s3.holds(wide, id1) && s3.holds(wide, id2) && id1 != id2 implies separable(
                K::hash_of(id1),
                K::hash_of(id2),
            ) by {
                assert(s0.holds(cur, id1));
                assert(s0.holds(cur, id2));
            }
        }
        assert(s3.path(wide) == s0.path(cur));
        assert(s3.depth(p) == s0.depth(p));
        assert(s3.node_ok(base, None, p));
        assert(s3.slot_ok(base, None, p, ppos));
    }

    /// What `_insert` leaves at the narrow array node `cur` after its
    /// expansion and the insertion into the wide array node in its place.
    pub(crate) proof fn lemma_expand_end(
        s0: &Self,
        s2: &Self,
        s3: &Self,
        s4: &Self,
        key: K,
        val: V,
        h: u64,
        lev: u8,
        cur: usize,
        p: usize,
        base: usize,
        top: usize,
        en: usize,
    )
        requires
            s0.insert_pre(key, h, lev, cur, Some(p), base, top),
            s0.slots(cur).len() == NARROW,
            s0.collides(cur, key.id()),
            0 <= s0.slot_for(p, key.id()) < s0.slots(p).len(),
            s2.expanding(s0, key, cur, p, base, top, en),
            s3.expansion_post(s2, en, base, top),
            s4.insert_post(s3, key, val, s3.nodes()[en as int]->wide, Some(p), base, top),
        ensures
            s4.insert_post(s0, key, val, cur, Some(p), base, top),
    {
        let ppos = s0.slot_for(p, key.id());
        let wide = s3.nodes()[en as int]->wide;
        Self::lemma_expand_retry(s0, s2, s3, key, h, lev, cur, p, base, top, en);
        assert(s3.slots(wide).len() == WIDE);
        assert(s4.landing(s3, Some(p), wide, key.id()) == wide);
        assert(s3.nodes()[wide as int].kept_as(s4.nodes()[wide as int]));
        assert(!s0.valid(wide));
        assert(s3.hardened(cur));
        assert(s4.hardened(cur));
        Self::lemma_kept_trans(s0, s2, s3);
        Self::lemma_lookups_trans(s0, s2, s3);
        Self::lemma_frees_trans(s0, s2, s3);
        Self::lemma_kept_trans(s0, s3, s4);
        Self::lemma_frees_trans(s0, s3, s4);
        assert(s0.nodes()[p as int].kept_as(s3.nodes()[p as int]));
        assert(s3.slot_for(p, key.id()) == ppos);
        assert(s0.same_below(s4, base)) by {
            assert forall|a: usize| s0.valid(a) && a < base implies #[trigger] s0.same_at(s4, a) by {
                assert(s0.same_at(s2, a));
                assert(s2.same_at(s3, a));
                assert(s3.same_at(s4, a));
            }
        }
        assert(s0.same_above(s4, s0.depth(p))) by {
            assert forall|a: usize|
                s0.valid(a) && s0.nodes()[a as int] is ANode && s0.depth(a) < s0.depth(p)
                implies #[trigger] s0.same_at(s4, a) by {
                assert(s0.same_at(s2, a));
                assert(s2.same_at(s3, a));
                assert(s3.same_at(s4, a));
            }
        }
        assert forall|x: usize, id: K::Id|
            s0.is_arr(x) && id != key.id() implies #[trigger] s4.lookup_from(x, id)
            == s0.lookup_from(x, id) by {
            assert(s0.nodes()[x as int].kept_as(s3.nodes()[x as int]));
            assert(s3.lookup_from(x, id) == s0.lookup_from(x, id));
        }
        assert forall|j: int|
            0 <= j < s0.slots(p).len() && j != ppos implies #[trigger] s4.slots(p)[j] == s0.slots(
            p,
        )[j] by {
            assert(s3.slots(p)[j] == s2.slots(p)[j]);
        }
        assert forall|id: K::Id| #[trigger]
            s4.lookup_from(s4.slots(p)[ppos], id) == if id == key.id() {
                Some(val)
            } else {
                s0.lookup_from(cur, id)
            } by {
            assert(s3.lookup_from(wide, id) == s2.lookup_from(cur, id));
            assert(s2.lookup_from(cur, id) == s0.lookup_from(cur, id));
        }
    }

    /// Before the narrow array node for two data nodes is built: what
    /// `_create_anode` asks for holds.
    pub(crate) proof fn lemma_pair_begin(
        s0: &Self,
        s1: &Self,
        s2: &Self,
        key: K,
        h: u64,
        lev: u8,
        cur: usize,
        prev: Option<usize>,
        base: usize,
        top: usize,
        t1: usize,
        t2: usize,
    )
        requires
            s0.insert_pre(key, h, lev, cur, prev, base, top),
            s0.slots(cur).len() == WIDE,
            0 <= s0.slot_for(cur, key.id()) < s0.slots(cur).len(),
            ({
                let x0 = s0.slots(cur)[s0.slot_for(cur, key.id())];
                s0.live_data(x0) && s0.nodes()[x0 as int]->SNode_key.id() != key.id()
            }),
            s0.grown_by(s1, t1),
            !s1.valid(NULL),
            s1.nodes()[t1 as int] is NoTxn,
            s1.grown_by(s2, t2),
            !s2.valid(NULL),
            s2.nodes()[t2 as int] is NoTxn,
        ensures
            ({
                let pos = s0.slot_for(cur, key.id());
                let old = s0.nodes()[s0.slots(cur)[pos] as int];
                let path = s0.child_path(cur, pos);
                &&& lev + 4 <= 60
                &&& lev + 4 == 4 * path.len()
                &&& s2.inv(base, None)
                &&& s2.settled(base, top, NULL)
                &&& base <= s2.nodes().len()
                &&& s2.valid(t1) && s2.nodes()[t1 as int] is NoTxn
                &&& s2.valid(t2) && s2.nodes()[t2 as int] is NoTxn
                &&& old.hash_spec() == K::hash_of(old->SNode_key.id())
                &&& on_path(old.hash_spec(), path)
                &&& on_path(h, path)
                &&& separable_from(old.hash_spec(), h, path.len() as int)
                &&& s0.kept(s2)
                &&& s0.same_lookups(s2)
                &&& s0.frees(s2)
                &&& forall|a: usize| s0.valid(a) ==> #[trigger] s0.same_at(s2, a)
            }),
    {
        let pos = s0.slot_for(cur, key.id());
        let x0 = s0.slots(cur)[pos];
        let path = s0.child_path(cur, pos);
        assert(s0.node_ok(base, None, cur));
        assert(s0.node_typed(cur));
        assert(s0.slot_ok(base, None, cur, pos));
        assert(s0.node_ok(base, None, x0));
        assert(s0.child_path(cur, pos).len() == s0.depth(cur) + 1);
        Self::lemma_on_path_push(h, s0.path(cur), true, pos);
        assert(s1.node_typed(t1));
        Self::lemma_alloc_plain(s0, s1, base, None, t1);
        assert(s2.node_typed(t2));
        Self::lemma_alloc_plain(s1, s2, base, None, t2);
        Self::lemma_kept_trans(s0, s1, s2);
        Self::lemma_lookups_trans(s0, s1, s2);
        Self::lemma_frees_trans(s0, s1, s2);
        assert forall|a: usize| s0.valid(a) implies #[trigger] s0.same_at(s2, a) by {
            assert(s0.same_at(s1, a));
            assert(s1.same_at(s2, a));
        }
        Self::lemma_settled_grown(s0, s2, base, top, NULL, NULL);
        match s0.nodes()[x0 as int] {
            Node::SNode { hash, key: okey, val: oval, .. } => {
                s0.lemma_on_child_path(hash, cur, pos);
                assert(s0.lookup_from(cur, okey.id()) == Some(oval));
                assert(s0.holds(cur, okey.id()));
                assert(s0.parts(cur, hash, h) || s0.makes_room(cur, key.id(), hash));
                s0.lemma_met_in_wide(cur, key.id(), hash);
                Self::lemma_separable_below(hash, h, path);
                let j = choose|j: int| path.len() <= j < 16 && #[trigger] low_bits_differ(hash, h, j);
                assert(path.len() <= 15);
            },
            _ => {},
        }
    }

    /// What `_insert` leaves after the narrow array node `an` for the data
    /// node in the slot and the new one went into the `txn` of the former
    /// and into the slot.
    pub(crate) proof fn lemma_pair_end(
        s0: &Self,
        s2: &Self,
        s3: &Self,
        s4: &Self,
        key: K,
        val: V,
        h: u64,
        lev: u8,
        cur: usize,
        prev: Option<usize>,
        base: usize,
        top: usize,
        an: usize,
    )
        requires
            s0.insert_pre(key, h, lev, cur, prev, base, top),
            s0.slots(cur).len() == WIDE,
            0 <= s0.slot_for(cur, key.id()) < s0.slots(cur).len(),
            ({
                let x0 = s0.slots(cur)[s0.slot_for(cur, key.id())];
                s0.live_data(x0) && s0.nodes()[x0 as int]->SNode_key.id() != key.id()
            }),
            s0.kept(s2),
            s0.same_lookups(s2),
            s0.frees(s2),
            forall|a: usize| s0.valid(a) ==> #[trigger] s0.same_at(s2, a),
            s3.inv(base, None),
            s3.settled(base, top, an),
            s2.kept(s3),
            s2.same_lookups(s3),
            s2.same_below(s3, s2.nodes().len() as usize),
            !s2.valid(an),
            s3.is_arr(an),
            !s3.retired(an),
            s3.path(an) == s0.child_path(cur, s0.slot_for(cur, key.id())),
            s3.free(an),
            forall|c: usize| s2.valid(c) && s2.free(c) ==> s3.free(c),
            forall|id: K::Id| #[trigger]
                s3.lookup_from(an, id) == if s0.nodes()[s0.slots(cur)[s0.slot_for(
                    cur,
                    key.id(),
                )] as int]->SNode_key.id() == id {
                    Some(s0.nodes()[s0.slots(cur)[s0.slot_for(cur, key.id())] as int]->SNode_val)
                } else if key.id() == id {
                    Some(val)
                } else {
                    None
                },
            s3.changed(s4, cur, s0.slot_for(cur, key.id())),
            s4.nodes().len() == s3.nodes().len(),
            s4.slots(cur)[s0.slot_for(cur, key.id())] == an,
            s4.nodes()[s0.slots(cur)[s0.slot_for(cur, key.id())] as int].txn() == an,
            s4.metas()[an as int] == s3.metas()[an as int],
        ensures
            s4.insert_post(s0, key, val, cur, prev, base, top),
    {
        let pos = s0.slot_for(cur, key.id());
        let x0 = s0.slots(cur)[pos];
        let d = s0.depth(cur);
        assert(s0.node_ok(base, None, cur));
        assert(s0.node_typed(cur));
        assert(s0.slot_ok(base, None, cur, pos));
        assert(s0.node_ok(base, None, x0));
        assert(s0.child_path(cur, pos).len() == d + 1);
        Self::lemma_kept_trans(s0, s2, s3);
        Self::lemma_lookups_trans(s0, s2, s3);
        assert(s0.frees(s3)) by {
            assert forall|c: usize| s0.valid(c) && #[trigger] s0.free(c) implies s3.free(c) by {
                assert(s2.free(c));
            }
        }
        assert forall|a: usize| s0.valid(a) implies #[trigger] s0.same_at(s3, a) by {
            assert(s0.same_at(s2, a));
            assert(s2.same_at(s3, a));
        }
        assert(s0.same_at(s3, cur));
        assert(s0.same_at(s3, x0));
        assert(s4.child_path(cur, pos) == s0.child_path(cur, pos));
        assert(s3.nodes()[an as int].kept_as(s4.nodes()[an as int]));
        assert(s4.slot_ok(base, None, cur, pos));
        assert(s3.step(s4, cur, pos));
        Self::lemma_step(s3, s4, base, None, None, cur, pos);
        assert forall|x: usize|
            s3.valid(x) && x >= base && x != an implies #[trigger] s3.settled_at(x, top, NULL) by {
            assert(s3.settled_at(x, top, an));
        }
        assert(!s4.live_data(x0));
        assert forall|id: K::Id| #[trigger] s4.lookup_from(an, id) == s3.lookup_from(an, id) by {
            Self::lemma_sim(s3, s4, cur, pos, id, an);
        }
        assert(s4.node_ok(base, None, an));
        assert(s4.depth(an) == d + 1);
        assert(s4.resolve(cur, an) == Target::<K::Id, V>::Down(an));
        match s0.nodes()[x0 as int] {
            Node::SNode { key: okey, val: oval, .. } => {
                assert(s3.resolve(cur, x0) == Target::<K::Id, V>::Leaf(okey.id(), oval));
            },
            _ => {},
        }
        assert forall|id: K::Id|
            #![trigger s3.slot_for(cur, id)]
            s3.slot_for(cur, id) == pos implies s4.follow(
            s4.resolve(cur, s4.slots(cur)[pos]),
            s3.depth(cur),
            id,
        ) == if id == key.id() {
            Some(val)
        } else {
            s3.follow(s3.resolve(cur, s3.slots(cur)[pos]), s3.depth(cur), id)
        } by {
            assert(s4.lookup_from(an, id) == s3.lookup_from(an, id));
        }
        Self::lemma_insert_wrap(s0, s3, s4, key, val, cur, prev, base, top, pos);
    }

    /// What `_insert` leaves, from a step on slot `pos` of `cur` after which
    /// that slot leads to `val` for the key and to what it led to for the
    /// other keys.
    pub(crate) proof fn lemma_insert_wrap(
        s0: &Self,
        s2: &Self,
        s3: &Self,
        key: K,
        val: V,
        cur: usize,
        prev: Option<usize>,
        base: usize,
        top: usize,
        pos: int,
    )
        requires
            s0.insert_pre(
                key,
                K::hash_of(key.id()),
                (4 * s0.depth(cur)) as u8,
                cur,
                prev,
                base,
                top,
            ),
            forall|x: usize|
                s2.valid(x) && x >= base && x != s3.slots(cur)[pos] ==> #[trigger] s2.settled_at(
                    x,
                    top,
                    NULL,
                ),
            forall|c: usize| #[trigger] s2.held(c) && c != s2.slots(cur)[pos] ==> s3.held(c),
            s3.held(s3.slots(cur)[pos]),
            s2.valid(s2.slots(cur)[pos]) ==> s3.settled_at(s2.slots(cur)[pos], top, NULL),
            s3.settled_at(s3.slots(cur)[pos], top, NULL),
            s3.nodes().len() == s2.nodes().len(),
            s0.typed(),
            s0.kept(s2),
            s0.same_lookups(s2),
            s0.frees(s2),
            forall|a: usize| s0.valid(a) ==> #[trigger] s0.same_at(s2, a),
            s2.typed(),
            s2.step(s3, cur, pos),
            pos == s0.slot_for(cur, key.id()),
            !(s0.collides(cur, key.id()) && s0.slots(cur).len() == NARROW),
            !s0.is_arr(s0.slots(cur)[pos]),
            !s0.collides(cur, key.id()) ==> !s3.is_arr(s3.slots(cur)[pos]),
            s3.inv(base, None),
            s2.kept(s3),
            forall|c: usize|
                s2.free(c) && c != NULL && c != s3.slots(cur)[pos] ==> #[trigger] s3.free(c),
            !s0.valid(s3.slots(cur)[pos]),
            forall|id: K::Id|
                #![trigger s2.slot_for(cur, id)]
                s2.slot_for(cur, id) == pos ==> s3.follow(
                    s3.resolve(cur, s3.slots(cur)[pos]),
                    s2.depth(cur),
                    id,
                ) == if id == key.id() {
                    Some(val)
                } else {
                    s2.follow(s2.resolve(cur, s2.slots(cur)[pos]), s2.depth(cur), id)
                },
        ensures
            s3.insert_post(s0, key, val, cur, prev, base, top),
    {
        Self::lemma_kept_trans(s0, s2, s3);
        assert forall|j: int| #[trigger] s0.turn_from(cur, key.id(), j) implies s3.run_from(
            cur,
            K::hash_of(key.id()),
            j,
        ) by {
            assert(s0.next(cur, K::hash_of(key.id())) == s0.slots(cur)[pos]);
            assert(!s0.turn_from(s0.slots(cur)[pos], key.id(), j));
        }
        assert(s0.widths_after(s3, cur, cur, key.id())) by {
            let h = K::hash_of(key.id());
            assert(s0.node_ok(base, None, cur));
            assert(s3.node_ok(base, None, cur));
            assert(s0.nodes()[cur as int].kept_as(s3.nodes()[cur as int]));
            assert(s0.node_typed(cur));
            assert(s0.widths_spec(cur, h) =~= seq![s0.slots(cur).len() as usize]);
            assert(s0.last_stop(cur, h) == cur);
            let c = s3.slots(cur)[pos];
            if s3.is_arr(c) && s3.depth(c) == s3.depth(cur) + 1 {
                assert(s3.widths_spec(cur, h) =~= seq![s3.slots(cur).len() as usize]
                    + s3.widths_spec(c, h));
            } else {
                assert(s3.widths_spec(cur, h) =~= seq![s3.slots(cur).len() as usize]);
            }
        }
        assert(s3.settled(base, top, NULL)) by {
            let x0 = s2.slots(cur)[pos];
            let c1 = s3.slots(cur)[pos];
            assert(s2.node_typed(cur));
            assert(s2.slot_typed(x0));
            assert forall|x: usize| s3.valid(x) && x >= base implies #[trigger] s3.settled_at(
                x,
                top,
                NULL,
            ) by {
                if x == c1 {
                    assert(s3.settled_at(x, top, NULL));
                } else if x == x0 {
                    assert(s3.settled_at(x, top, NULL));
                } else if x == cur {
                    assert(s0.same_at(s2, cur));
                    assert(s2.settled_at(cur, top, NULL));
                    assert(s2.nodes()[cur as int].kept_as(s3.nodes()[cur as int]));
                    assert(s3.retired(cur) == s2.retired(cur));
                    assert(!s3.retired(cur));
                    if s2.held(cur) {
                        assert(s3.held(cur));
                    }
                    assert(s3.settled_at(x, top, NULL));
                } else {
                    assert(s2.settled_at(x, top, NULL));
                    assert(s3.nodes()[x as int] == s2.nodes()[x as int]);
                    assert(s3.metas()[x as int] == s2.metas()[x as int]);
                    assert(s2.node_typed(x));
                    if s2.nodes()[x as int] is SNode {
                        let t = s2.nodes()[x as int].txn();
                        assert(s2.nodes()[t as int].kept_as(s3.nodes()[t as int]));
                    }
                    if s2.held(x) {
                        assert(s3.held(x));
                    }
                    assert(s3.live_data(x) == s2.live_data(x));
                    assert(s3.settled_at(x, top, NULL));
                }
            }
        }
        assert(s0.frees(s3)) by {
            assert forall|c: usize| s0.valid(c) && #[trigger] s0.free(c) implies s3.free(c) by {
                assert(s2.free(c));
            }
        }
        let x0 = s2.slots(cur)[pos];
        assert(s0.same_at(s2, cur));
        assert(s2.node_typed(cur));
        assert(s2.slot_typed(x0));
        assert(s0.node_ok(base, None, cur));
        assert(s0.slot_ok(base, None, cur, pos));
        assert(x0 == NULL || x0 >= base);
        assert(s2.slots_same_but(s3, cur, pos)) by {
            assert forall|a: usize, j: int|
                s2.is_arr(a) && 0 <= j < s2.slots(a).len() && !(a == cur && j == pos)
                implies #[trigger] s3.slots(a)[j] == s2.slots(a)[j] by {
                if a != cur && a != x0 {
                    assert(s3.nodes()[a as int] == s2.nodes()[a as int]);
                }
            }
        }
        assert forall|x: usize, id: K::Id|
            s0.is_arr(x) && id != key.id() implies #[trigger] s3.lookup_from(x, id)
            == s0.lookup_from(x, id) by {
            assert(s0.nodes()[x as int].kept_as(s2.nodes()[x as int]));
            Self::lemma_sim(s2, s3, cur, pos, id, x);
        }
        assert forall|id: K::Id| #[trigger]
            s3.lookup_from(cur, id) == if id == key.id() {
                Some(val)
            } else {
                s0.lookup_from(cur, id)
            } by {
            assert(s2.nodes()[cur as int].kept_as(s3.nodes()[cur as int]));
            assert(s3.depth(cur) == s2.depth(cur));
            assert(s2.lookup_from(cur, id) == s0.lookup_from(cur, id));
            if id == key.id() {
                assert(s2.slot_for(cur, id) == pos);
                assert(s3.slot_for(cur, id) == pos);
                assert(s3.node_ok(base, None, cur));
                assert(s3.lookup_from(cur, id) == s3.follow(
                    s3.resolve(cur, s3.slots(cur)[pos]),
                    s3.depth(cur),
                    id,
                ));
            } else {
                Self::lemma_sim(s2, s3, cur, pos, id, cur);
            }
        }
        assert(s0.same_below(s3, base)) by {
            assert forall|a: usize| s0.valid(a) && a < base implies #[trigger] s0.same_at(s3, a) by {
                assert(s0.same_at(s2, a));
                assert(s3.nodes()[a as int] == s2.nodes()[a as int]);
                assert(s3.metas()[a as int] == s2.metas()[a as int]);
            }
        }
        assert(s0.same_above(s3, s0.depth(cur))) by {
            assert forall|a: usize|
                s0.valid(a) && s0.nodes()[a as int] is ANode && s0.depth(a) < s0.depth(cur)
                implies #[trigger] s0.same_at(s3, a) by {
                assert(s0.same_at(s2, a));
                if a == x0 {
                    assert(s0.child_path(cur, pos).len() == s0.depth(cur) + 1);
                }
                assert(s3.nodes()[a as int] == s2.nodes()[a as int]);
                assert(s3.metas()[a as int] == s2.metas()[a as int]);
            }
        }
        match prev {
            Some(p) => {
                assert(s0.same_at(s2, p));
                assert(p != cur);
                if p == x0 {
                    assert(s0.child_path(cur, pos).len() == s0.depth(cur) + 1);
                }
                assert(s3.nodes()[p as int] == s2.nodes()[p as int]);
                assert(s3.metas()[p as int] == s2.metas()[p as int]);
                Self::lemma_above_trans(s0, s0, s3, s0.depth(p), s0.depth(cur), s0.depth(cur));
            },
            None => {},
        }
    }

    /// What holds between two rounds of `_copy`: the entries behind the
    /// first `i` slots of `an` are in `wide`.
    pub open spec fn copy_inv(&self, before: &Self, an: usize, wide: usize, lev: u8, i: int) -> bool {
        &&& before.copy_pre(an, wide, lev)
        &&& self.inv(wide, None)
        &&& self.settled(wide, wide, NULL)
        &&& before.kept(self)
        &&& before.same_below(self, wide)
        &&& before.frees(self)
        &&& self.is_arr(wide)
        &&& !self.retired(wide)
        &&& 0 <= i <= before.slots(an).len()
        &&& forall|id: K::Id| #[trigger]
            self.lookup_from(wide, id) == if before.slot_for(an, id) < i && before.holds(an, id) {
                before.lookup_from(an, id)
            } else {
                before.lookup_from(wide, id)
            }
    }

    /// Puts every key that the frozen array node `an` holds, with its
    /// value, into the sub-trie at the wide array node `wide` of level `lev`:
    /// the data nodes in its slots, and those below the array nodes that its
    /// frozen wrappers wrap.
    pub(crate) fn _copy(&mut self, an: usize, wide: usize, lev: u8)
        requires
            old(self).copy_pre(an, wide, lev),
        ensures
            final(self).copy_post(old(self), an, wide),
        decreases 16 - old(self).depth(wide), 2int, 16 - old(self).depth(an),
    {
        let len = self.get_ary_length(an);
        let ghost s0 = *self;
        let mut i: usize = 0;
        proof {
            Self::lemma_refl(&s0);
        }
        while i < len
            invariant
                s0 == *old(self),
                len == s0.slots(an).len(),
                self.copy_inv(&s0, an, wide, lev, i as int),
            decreases len - i,
        {
            let ghost s1 = *self;
            proof {
                Self::lemma_copy_slot(&s0, &s1, an, wide, lev, i as int);
            }
            let nodeptr = self.get_oldptr(an, i);
            if nodeptr != NULL {
                let kind = self.kind_at(nodeptr);
                if kind == Kind::ArrayFrozen {
                    let frozen = self.get_frozen(nodeptr);
                    proof {
                        assert(s1.depth(frozen) == s0.depth(an) + 1);
                    }
                    self._copy(frozen, wide, lev);
                    proof {
                        Self::lemma_copied_below(&s0, &s1, self, an, wide, lev, i as int);
                    }
                } else if let Some((hash, key, val)) = self.get_data(nodeptr) {
                    self._insert(key, val, hash, lev, wide, None, Ghost(wide), Ghost(wide));
                    proof {
                        Self::lemma_copied_data(&s0, &s1, self, an, wide, lev, i as int);
                    }
                } else {
                    proof {
                        Self::lemma_copy_skipped(&s0, &s1, an, wide, lev, i as int);
                    }
                }
            } else {
                proof {
                    Self::lemma_copy_skipped(&s0, &s1, an, wide, lev, i as int);
                }
            }
            i += 1;
        }
        proof {
            assert forall|id: K::Id| #[trigger]
                self.lookup_from(wide, id) == if s0.holds(an, id) {
                    s0.lookup_from(an, id)
                } else {
                    s0.lookup_from(wide, id)
                } by {
                if s0.holds(an, id) {
                    s0.lemma_found_on_path(wide, None, an, id);
                }
            }
        }
    }

    /// What slot `i` of the frozen array node `an` holds, and that what the
    /// copy of it asks for holds.
    proof fn lemma_copy_slot(s0: &Self, s1: &Self, an: usize, wide: usize, lev: u8, i: int)
        requires
            s1.copy_inv(s0, an, wide, lev, i),
            i < s0.slots(an).len(),
        ensures
            s1.is_arr(an),
            s1.slots(an) == s0.slots(an),
            ({
                let c = s0.slots(an)[i];
                &&& c != NULL
                &&& s0.valid(c)
                &&& s1.valid(c)
                &&& s1.nodes()[c as int] == s0.nodes()[c as int]
                &&& s1.depth(wide) == s0.depth(wide)
                &&& s1.slots(wide).len() == WIDE
                &&& match s0.nodes()[c as int] {
                    Node::FNode { frozen } => s1.copy_pre(frozen, wide, lev) && s1.depth(frozen)
                        == s0.depth(an) + 1 && s1.depth(frozen) <= 15,
                    Node::SNode { hash, key, .. } => s1.insert_pre(
                        key,
                        hash,
                        lev,
                        wide,
                        None,
                        wide,
                        wide,
                    ),
                    _ => true,
                }
            }),
    {
        let c = s0.slots(an)[i];
        assert(s0.same_at(s1, an));
        assert(s0.node_ok(wide, None, an));
        assert(s0.slot_ok(wide, None, an, i));
        assert(s0.node_typed(an));
        assert(s0.slot_typed(c));
        assert(s0.nodes()[wide as int].kept_as(s1.nodes()[wide as int]));
        assert(s0.closed_at(an, wide));
        assert(c < wide);
        assert(s0.same_at(s1, c));
        assert(s0.closed_at(c, wide));
        assert(s0.node_typed(c));
        assert(s0.node_ok(wide, None, c));
        match s0.nodes()[c as int] {
            Node::FNode { frozen } => {
                assert(s0.same_at(s1, frozen));
                assert(s0.node_ok(wide, None, frozen));
                assert(s0.child_path(an, i).len() == s0.path(an).len() + 1);
                assert(s0.resolve(an, c) == Target::<K::Id, V>::Down(frozen));
                assert(s0.path(wide).is_prefix_of(s0.path(frozen))) by {
                    let q = s0.path(frozen);
                    assert(q == s0.path(an).push((s0.slots(an).len() == WIDE, i)));
                    assert(s0.path(wide) =~= q.subrange(0, s0.path(wide).len() as int)) by {
                        assert(s0.path(wide) =~= s0.path(an).subrange(
                            0,
                            s0.path(wide).len() as int,
                        ));
                    }
                }
                Self::lemma_closed_kept(s0, s1, wide);
                assert forall|id: K::Id| #[trigger] s1.holds(frozen, id) implies s0.holds(an, id) by {
                    Self::lemma_below(s0, s1, wide, frozen, id);
                    s0.lemma_found_up(wide, None, an, i, frozen, id);
                }
                assert forall|id1: K::Id, id2: K::Id|
                    (s1.holds(frozen, id1) || s1.holds(wide, id1)) && (s1.holds(frozen, id2)
                        || s1.holds(wide, id2)) && id1 != id2 implies separable(
                    K::hash_of(id1),
                    K::hash_of(id2),
                ) by {
                    assert(s0.holds(an, id1) || s0.holds(wide, id1));
                    assert(s0.holds(an, id2) || s0.holds(wide, id2));
                }
            },
            Node::SNode { hash, key, val, .. } => {
                s0.lemma_on_child_path(hash, an, i);
                Self::lemma_on_path_prefix(hash, s0.path(wide), s0.path(an));
                assert(s0.lookup_from(an, key.id()) == Some(val));
                assert(s0.holds(an, key.id()));
                assert forall|id: K::Id| #[trigger]
                    s1.holds(wide, id) && id != key.id() implies separable(
                    K::hash_of(id),
                    K::hash_of(key.id()),
                ) by {
                    assert(s0.holds(an, id) || s0.holds(wide, id));
                }
                assert forall|id1: K::Id, id2: K::Id|
                    #![trigger s1.lookup_from(wide, id1), s1.lookup_from(wide, id2)]
                    s1.holds(wide, id1) && s1.holds(wide, id2) && id1 != id2 implies separable(
                    K::hash_of(id1),
                    K::hash_of(id2),
                ) by {
                    assert(s0.holds(an, id1) || s0.holds(wide, id1));
                    assert(s0.holds(an, id2) || s0.holds(wide, id2));
                }
            },
            _ => {},
        }
    }

    /// After the copy of the array node wrapped in slot `i` of `an`.
    proof fn lemma_copied_below(
        s0: &Self,
        s1: &Self,
        s2: &Self,
        an: usize,
        wide: usize,
        lev: u8,
        i: int,
    )
        requires
            s1.copy_inv(s0, an, wide, lev, i),
            i < s0.slots(an).len(),
            s0.valid(s0.slots(an)[i]),
            s0.nodes()[s0.slots(an)[i] as int] is FNode,
            s2.copy_post(s1, s0.nodes()[s0.slots(an)[i] as int]->frozen, wide),
        ensures
            s2.copy_inv(s0, an, wide, lev, i + 1),
    {
        let c = s0.slots(an)[i];
        let frozen = s0.nodes()[c as int]->frozen;
        Self::lemma_copy_slot(s0, s1, an, wide, lev, i);
        assert(s0.node_ok(wide, None, an));
        assert(s0.slot_ok(wide, None, an, i));
        assert(s0.child_path(an, i).len() == s0.path(an).len() + 1);
        assert(s0.resolve(an, c) == Target::<K::Id, V>::Down(frozen));
        Self::lemma_kept_trans(s0, s1, s2);
        Self::lemma_below_trans(s0, s1, s2, wide, wide, wide);
        Self::lemma_frees_trans(s0, s1, s2);
        assert forall|id: K::Id| #[trigger]
            s2.lookup_from(wide, id) == if s0.slot_for(an, id) < i + 1 && s0.holds(an, id) {
                s0.lookup_from(an, id)
            } else {
                s0.lookup_from(wide, id)
            } by {
            Self::lemma_below(s0, s1, wide, frozen, id);
            if s1.holds(frozen, id) {
                s0.lemma_found_up(wide, None, an, i, frozen, id);
            } else if s0.slot_for(an, id) == i && s0.holds(an, id) {
                s0.lemma_found_on_path(wide, None, an, id);
            }
        }
    }

    /// After the insertion of the data node in slot `i` of `an`.
    proof fn lemma_copied_data(
        s0: &Self,
        s1: &Self,
        s2: &Self,
        an: usize,
        wide: usize,
        lev: u8,
        i: int,
    )
        requires
            s1.copy_inv(s0, an, wide, lev, i),
            i < s0.slots(an).len(),
            s0.valid(s0.slots(an)[i]),
            s0.nodes()[s0.slots(an)[i] as int] is SNode,
            s2.insert_post(
                s1,
                s0.nodes()[s0.slots(an)[i] as int]->SNode_key,
                s0.nodes()[s0.slots(an)[i] as int]->SNode_val,
                wide,
                None,
                wide,
                wide,
            ),
        ensures
            s2.copy_inv(s0, an, wide, lev, i + 1),
    {
        let c = s0.slots(an)[i];
        let key = s0.nodes()[c as int]->SNode_key;
        let val = s0.nodes()[c as int]->SNode_val;
        let hash = s0.nodes()[c as int]->SNode_hash;
        Self::lemma_copy_slot(s0, s1, an, wide, lev, i);
        assert(s0.node_ok(wide, None, an));
        assert(s0.node_typed(an));
        assert(s0.slot_ok(wide, None, an, i));
        assert(s0.node_ok(wide, None, c));
        s0.lemma_on_child_path(hash, an, i);
        assert(s0.lookup_from(an, key.id()) == Some(val));
        Self::lemma_kept_trans(s0, s1, s2);
        Self::lemma_below_trans(s0, s1, s2, wide, wide, wide);
        Self::lemma_frees_trans(s0, s1, s2);
        assert forall|id: K::Id| #[trigger]
            s2.lookup_from(wide, id) == if s0.slot_for(an, id) < i + 1 && s0.holds(an, id) {
                s0.lookup_from(an, id)
            } else {
                s0.lookup_from(wide, id)
            } by {
            if id != key.id() && s0.slot_for(an, id) == i {
                assert(s0.lookup_from(an, id) is None);
            }
        }
    }

    /// Past a slot of `an` that holds no data node and no frozen wrapper.
    proof fn lemma_copy_skipped(s0: &Self, s1: &Self, an: usize, wide: usize, lev: u8, i: int)
        requires
            s1.copy_inv(s0, an, wide, lev, i),
            i < s0.slots(an).len(),
            s0.slots(an)[i] == NULL || !(s0.nodes()[s0.slots(an)[i] as int] is SNode
                || s0.nodes()[s0.slots(an)[i] as int] is FNode),
        ensures
            s1.copy_inv(s0, an, wide, lev, i + 1),
    {
        Self::lemma_copy_slot(s0, s1, an, wide, lev, i);
        assert(s0.node_ok(wide, None, an));
        assert(s0.slot_ok(wide, None, an, i));
        assert forall|id: K::Id| #[trigger]
            s1.lookup_from(wide, id) == if s0.slot_for(an, id) < i + 1 && s0.holds(an, id) {
                s0.lookup_from(an, id)
            } else {
                s0.lookup_from(wide, id)
            } by {
            if s0.slot_for(an, id) == i {
                assert(s0.lookup_from(an, id) is None);
            }
        }
    }
}

} // verus!
