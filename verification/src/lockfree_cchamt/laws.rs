//! What holds of the trie whatever is inserted: of single insertions, of
//! runs of insertions, and of the single transitions.
use crate::lockfree_cchamt::{LockfreeTrie, TrieData, TrieKey, NULL};
use vstd::prelude::*;

verus! {

/// What a trie holds after the insertions `ops`, made in their order into
/// an empty trie: each is the identity of a key with a value.
pub open spec fn held_after<I, V>(ops: Seq<(I, V)>) -> Map<I, V>
    decreases ops.len(),
{
    if ops.len() == 0 {
        Map::empty()
    } else {
        held_after(ops.drop_last()).insert(ops.last().0, ops.last().1)
    }
}

impl<K: TrieKey, V: TrieData> LockfreeTrie<K, V> {
    /// After an insertion, the trie holds the inserted value for the key.
    pub proof fn law_insert_then_lookup(before: &Self, after: &Self, key: K, val: V)
        requires
            after@ == before@.insert(key.id(), val),
        ensures
            after.get_spec(key.id()) == Some(val),
    {
    }

    /// An insertion changes what is held for no other key.
    pub proof fn law_insert_keeps_others(before: &Self, after: &Self, key: K, val: V, other: K)
        requires
            after@ == before@.insert(key.id(), val),
            other.id() != key.id(),
        ensures
            after.get_spec(other.id()) == before.get_spec(other.id()),
    {
    }

    /// Of two insertions for one key, the later one decides what is held.
    pub proof fn law_last_insert_wins(t0: &Self, t1: &Self, t2: &Self, key: K, v1: V, v2: V)
        requires
            t1@ == t0@.insert(key.id(), v1),
            t2@ == t1@.insert(key.id(), v2),
        ensures
            t2.get_spec(key.id()) == Some(v2),
    {
    }

    /// Inserting the same entry twice leaves what the first insertion left.
    pub proof fn law_insert_idempotent(t0: &Self, t1: &Self, t2: &Self, key: K, val: V)
        requires
            t1@ == t0@.insert(key.id(), val),
            t2@ == t1@.insert(key.id(), val),
        ensures
            t2@ == t1@,
            t2@.dom() == t1@.dom(),
    {
        assert(t2@ =~= t1@);
    }
}

/// The insertions `ops` as identities of keys with values.
pub open spec fn named<K: TrieKey, V>(ops: Seq<(K, V)>) -> Seq<(K::Id, V)> {
    Seq::new(ops.len(), |i: int| (ops[i].0.id(), ops[i].1))
}

impl<K: TrieKey, V: TrieData> LockfreeTrie<K, V> {
    /// The tries `tries` are what a run of the insertions `ops` passes:
    /// the first holds nothing, and each other one holds what the one
    /// before held, and the value of its insertion for the key of it.
    pub open spec fn run_of(tries: Seq<Self>, ops: Seq<(K, V)>) -> bool {
        &&& tries.len() == ops.len() + 1
        &&& tries[0]@ == Map::<K::Id, V>::empty()
        &&& forall|i: int|
            1 <= i <= ops.len() ==> (#[trigger] tries[i])@ == tries[i - 1]@.insert(
                ops[i - 1].0.id(),
                ops[i - 1].1,
            )
    }

    /// After a run of insertions the trie holds, for each key, the value of
    /// the last insertion that named it, and nothing else.
    pub proof fn law_run_holds_the_last(tries: Seq<Self>, ops: Seq<(K, V)>)
        requires
            Self::run_of(tries, ops),
        ensures
            tries.last()@ == held_after(named(ops)),
        decreases ops.len(),
    {
        if ops.len() == 0 {
            assert(tries.last() == tries[0]);
        } else {
            let n = ops.len() as int;
            let front = ops.drop_last();
            let before = tries.drop_last();
            assert(before[0] == tries[0]);
            assert forall|i: int| 1 <= i <= front.len() implies (#[trigger] before[i])@ == before[i
                - 1]@.insert(front[i - 1].0.id(), front[i - 1].1) by {
                assert(before[i] == tries[i]);
                assert(before[i - 1] == tries[i - 1]);
                assert(front[i - 1] == ops[i - 1]);
            }
            Self::law_run_holds_the_last(before, front);
            assert(before.last() == tries[n - 1]);
            assert(tries.last() == tries[n]);
            assert(named(ops).drop_last() =~= named(front));
            assert(named(ops).last() == (ops[n - 1].0.id(), ops[n - 1].1));
        }
    }

    /// After a run of insertions for keys that differ one from another,
    /// each key is held with its value: no entry is lost.
    pub proof fn law_distinct_keys_all_held(tries: Seq<Self>, ops: Seq<(K, V)>)
        requires
            Self::run_of(tries, ops),
            forall|i: int, j: int|
                0 <= i < j < ops.len() ==> (#[trigger] ops[i]).0.id() != (#[trigger] ops[j]).0.id(),
        ensures
            forall|i: int|
                0 <= i < ops.len() ==> tries.last().get_spec((#[trigger] ops[i]).0.id()) == Some(
                    ops[i].1,
                ),
    {
        Self::law_run_holds_the_last(tries, ops);
        let ids = named(ops);
        assert forall|i: int, j: int| 0 <= i < j < ids.len() implies (#[trigger] ids[i]).0 != (
        #[trigger] ids[j]).0 by {
            assert(ops[i].0.id() != ops[j].0.id());
        }
        law_distinct_inserts_all_held(ids);
        assert forall|i: int| 0 <= i < ops.len() implies tries.last().get_spec(
            (#[trigger] ops[i]).0.id(),
        ) == Some(ops[i].1) by {
            assert(ids[i] == (ops[i].0.id(), ops[i].1));
            assert(held_after(ids).contains_key(ids[i].0));
        }
    }
}

/// An insertion extends what is held after the insertions before it.
pub proof fn law_insert_extends<I, V>(ops: Seq<(I, V)>, id: I, val: V)
    ensures
        held_after(ops.push((id, val))) == held_after(ops).insert(id, val),
{
    assert(ops.push((id, val)).drop_last() =~= ops);
}

/// A key that no insertion named is not held.
pub proof fn law_never_inserted<I, V>(ops: Seq<(I, V)>, id: I)
    requires
        forall|i: int| 0 <= i < ops.len() ==> (#[trigger] ops[i]).0 != id,
    ensures
        !held_after(ops).contains_key(id),
    decreases ops.len(),
{
    if ops.len() > 0 {
        let front = ops.drop_last();
        assert forall|i: int| 0 <= i < front.len() implies (#[trigger] front[i]).0 != id by {
            assert(front[i] == ops[i]);
        }
        law_never_inserted(front, id);
        assert(ops.last() == ops[ops.len() - 1]);
    }
}

/// The value held for a key is that of the last insertion that named it.
pub proof fn law_last_wins<I, V>(ops: Seq<(I, V)>, at: int)
    requires
        0 <= at < ops.len(),
        forall|i: int| at < i < ops.len() ==> (#[trigger] ops[i]).0 != ops[at].0,
    ensures
        held_after(ops).contains_key(ops[at].0),
        held_after(ops)[ops[at].0] == ops[at].1,
    decreases ops.len(),
{
    let front = ops.drop_last();
    assert(ops.last() == ops[ops.len() - 1]);
    if at < ops.len() - 1 {
        assert(front[at] == ops[at]);
        assert forall|i: int| at < i < front.len() implies (#[trigger] front[i]).0
            != front[at].0 by {
            assert(front[i] == ops[i]);
        }
        law_last_wins(front, at);
    }
}

/// After insertions for keys that differ one from another, each key is held
/// with the value of its insertion: none is lost.
pub proof fn law_distinct_inserts_all_held<I, V>(ops: Seq<(I, V)>)
    requires
        forall|i: int, j: int|
            0 <= i < j < ops.len() ==> (#[trigger] ops[i]).0 != (#[trigger] ops[j]).0,
    ensures
        forall|i: int|
            0 <= i < ops.len() ==> held_after(ops).contains_key((#[trigger] ops[i]).0)
                && held_after(ops)[ops[i].0] == ops[i].1,
{
    assert forall|i: int| 0 <= i < ops.len() implies held_after(ops).contains_key(
        (#[trigger] ops[i]).0,
    ) && held_after(ops)[ops[i].0] == ops[i].1 by {
        law_last_wins(ops, i);
    }
}

/// A value that is held was the value of an insertion for its key.
pub proof fn law_held_was_inserted<I, V>(ops: Seq<(I, V)>, id: I)
    requires
        held_after(ops).contains_key(id),
    ensures
        exists|i: int| 0 <= i < ops.len() && #[trigger] ops[i] == (id, held_after(ops)[id]),
    decreases ops.len(),
{
    if ops.len() > 0 {
        let front = ops.drop_last();
        assert(ops.last() == ops[ops.len() - 1]);
        if ops.last().0 == id {
            assert(ops[ops.len() - 1] == (id, held_after(ops)[id]));
        } else {
            law_held_was_inserted(front, id);
            let i = choose|i: int| 0 <= i < front.len() && #[trigger] front[i] == (
                id,
                held_after(front)[id],
            );
            assert(ops[i] == front[i]);
        }
    }
}

impl<K: TrieKey, V: TrieData> LockfreeTrie<K, V> {
    /// `later` is this state after one successful compare-and-swap on slot
    /// `pos` of the array node `cur`, which took `new`.
    pub open spec fn slot_swapped(&self, later: &Self, cur: usize, pos: int, new: usize) -> bool {
        &&& self.is_arr(cur)
        &&& 0 <= pos < self.slots(cur).len()
        &&& later.nodes().len() == self.nodes().len()
        &&& later.metas().len() == later.nodes().len()
        &&& later.root_spec() == self.root_spec()
        &&& later.cache_spec() == self.cache_spec()
        &&& later.is_arr(cur)
        &&& later.slots(cur) == self.slots(cur).update(pos, new)
        &&& forall|a: usize| self.valid(a) && a != cur ==> #[trigger] self.same_at(later, a)
        &&& later.path(cur) == self.path(cur)
    }

    /// `later` is this state after one successful compare-and-swap on the
    /// `txn` of the data node `sn`, which took `new`.
    pub open spec fn txn_swapped(&self, later: &Self, sn: usize, new: usize) -> bool {
        &&& self.valid(sn)
        &&& self.nodes()[sn as int] is SNode
        &&& later.nodes().len() == self.nodes().len()
        &&& later.metas() == self.metas()
        &&& later.root_spec() == self.root_spec()
        &&& later.cache_spec() == self.cache_spec()
        &&& self.nodes()[sn as int].kept_as(later.nodes()[sn as int])
        &&& later.nodes()[sn as int].txn() == new
        &&& forall|a: usize| self.valid(a) && a != sn ==> #[trigger] self.same_at(later, a)
    }

    /// `later` is this state after one successful compare-and-swap on the
    /// `wide` of the expansion node `en`, which took `new`.
    pub open spec fn wide_swapped(&self, later: &Self, en: usize, new: usize) -> bool {
        &&& self.valid(en)
        &&& self.nodes()[en as int] is ENode
        &&& later.nodes().len() == self.nodes().len()
        &&& later.metas() == self.metas()
        &&& later.root_spec() == self.root_spec()
        &&& later.cache_spec() == self.cache_spec()
        &&& self.nodes()[en as int].kept_as(later.nodes()[en as int])
        &&& later.nodes()[en as int]->wide == new
        &&& forall|a: usize| self.valid(a) && a != en ==> #[trigger] self.same_at(later, a)
    }

    /// Whatever came before: a compare-and-swap that puts into a slot,
    /// empty or not, nothing or the address of a data, array, expansion,
    /// array-frozen or empty-frozen node leaves the slots and `txn` words
    /// conforming.
    pub proof fn law_slot_swap_conforms(before: &Self, after: &Self, cur: usize, pos: int, new: usize)
        requires
            before.typed(),
            before.slot_swapped(after, cur, pos, new),
            after.slot_typed(new),
        ensures
            after.typed(),
    {
        assert(before.kept_words(after)) by {
            assert forall|a: int| 0 <= a < before.nodes().len() implies (
            #[trigger] before.nodes()[a]).kept_as(after.nodes()[a]) && before.metas()[a].path
                == after.metas()[a].path by {
                if a != cur {
                    assert(before.same_at(after, a as usize));
                }
            }
        }
        assert(before.slots_same_but(after, cur, pos)) by {
            assert forall|a: usize, j: int|
                before.is_arr(a) && 0 <= j < before.slots(a).len() && !(a == cur && j == pos)
                implies #[trigger] after.slots(a)[j] == before.slots(a)[j] by {
                if a != cur {
                    assert(before.same_at(after, a));
                }
            }
        }
        assert forall|a: usize| before.valid(a) && !(before.nodes()[a as int] is ANode)
            implies #[trigger] after.nodes()[a as int] == before.nodes()[a as int] by {
            assert(before.same_at(after, a));
        }
        Self::lemma_typed_after(before, after, cur, pos);
    }

    /// Whatever came before: a compare-and-swap that puts into the `txn`
    /// of a data node the address of the data-frozen marker, or of the data or
    /// array node that replaces it, leaves the slots and `txn` words
    /// conforming.
    pub proof fn law_txn_swap_conforms(before: &Self, after: &Self, sn: usize, new: usize)
        requires
            before.typed(),
            before.txn_swapped(after, sn, new),
            after.valid(new),
            after.nodes()[new as int] is FSNode || after.nodes()[new as int] is SNode
                || after.nodes()[new as int] is ANode || after.nodes()[new as int] is NoTxn,
        ensures
            after.typed(),
    {
        assert(before.kept_words(after)) by {
            assert forall|a: int| 0 <= a < before.nodes().len() implies (
            #[trigger] before.nodes()[a]).kept_as(after.nodes()[a]) && before.metas()[a].path
                == after.metas()[a].path by {
                if a != sn {
                    assert(before.same_at(after, a as usize));
                }
            }
        }
        assert(before.slots_same_but(after, sn, -1)) by {
            assert forall|a: usize, j: int|
                before.is_arr(a) && 0 <= j < before.slots(a).len() implies #[trigger] after.slots(
                a,
            )[j] == before.slots(a)[j] by {
                assert(before.same_at(after, a));
            }
        }
        assert forall|a: usize|
            before.valid(a) && before.nodes()[a as int] is SNode implies after.nodes()[a as int].txn()
            == before.nodes()[a as int].txn() || #[trigger] after.txn_typed(a) by {
            if a != sn {
                assert(before.same_at(after, a));
            }
        }
        assert forall|a: usize|
            before.valid(a) && before.nodes()[a as int] is ENode
            implies #[trigger] after.nodes()[a as int] == before.nodes()[a as int] || after.is_arr(
            after.nodes()[a as int]->wide,
        ) by {
            assert(before.same_at(after, a));
        }
        Self::lemma_typed_after(before, after, sn, -1);
    }

    /// Whatever came before: a compare-and-swap that puts the address of
    /// an array node into the `wide` of an expansion node leaves the slots
    /// and `txn` words conforming.
    pub proof fn law_wide_swap_conforms(before: &Self, after: &Self, en: usize, new: usize)
        requires
            before.typed(),
            before.wide_swapped(after, en, new),
            after.is_arr(new),
        ensures
            after.typed(),
    {
        assert(before.kept_words(after)) by {
            assert forall|a: int| 0 <= a < before.nodes().len() implies (
            #[trigger] before.nodes()[a]).kept_as(after.nodes()[a]) && before.metas()[a].path
                == after.metas()[a].path by {
                if a != en {
                    assert(before.same_at(after, a as usize));
                }
            }
        }
        assert(before.slots_same_but(after, en, -1)) by {
            assert forall|a: usize, j: int|
                before.is_arr(a) && 0 <= j < before.slots(a).len() implies #[trigger] after.slots(
                a,
            )[j] == before.slots(a)[j] by {
                assert(before.same_at(after, a));
            }
        }
        assert forall|a: usize|
            before.valid(a) && before.nodes()[a as int] is SNode implies after.nodes()[a as int].txn()
            == before.nodes()[a as int].txn() || #[trigger] after.txn_typed(a) by {
            assert(before.same_at(after, a));
        }
        assert forall|a: usize|
            before.valid(a) && before.nodes()[a as int] is ENode
            implies #[trigger] after.nodes()[a as int] == before.nodes()[a as int] || after.is_arr(
            after.nodes()[a as int]->wide,
        ) by {
            if a != en {
                assert(before.same_at(after, a));
            }
        }
        Self::lemma_typed_after(before, after, en, -1);
    }

    /// Whatever came before: a node added to the arena, itself conforming,
    /// leaves the slots and `txn` words conforming.
    pub proof fn law_alloc_conforms(before: &Self, after: &Self, added: usize)
        requires
            before.typed(),
            before.grown_by(after, added),
            added != NULL,
            after.node_typed(added),
        ensures
            after.typed(),
    {
        assert(before.kept_words(after)) by {
            assert forall|a: int| 0 <= a < before.nodes().len() implies (
            #[trigger] before.nodes()[a]).kept_as(after.nodes()[a]) && before.metas()[a].path
                == after.metas()[a].path by {
                assert(after.nodes()[a] == before.nodes()[a]);
            }
        }
        assert forall|a: usize, j: int|
            before.is_arr(a) && 0 <= j < before.slots(a).len() implies #[trigger] after.slots(a)[j]
            == before.slots(a)[j] by {
            assert(after.nodes()[a as int] == before.nodes()[a as int]);
        }
        assert(before.slots_same_but(after, added, 0));
        assert forall|a: usize| before.valid(a) implies #[trigger] after.nodes()[a as int]
            == before.nodes()[a as int] by {}
        Self::lemma_typed_after(before, after, added, 0);
    }
}

} // verus!
