//! A cache-conscious hash array mapped trie whose nodes live in an
//! append-only arena and refer to each other by address.
//!
//! Every change of the trie is one of a few single-word transitions: a
//! compare-and-swap on a slot of an array node, on the `txn` word of a data
//! node, or on the `wide` word of an expansion node. The trie is held by
//! exclusive reference, so each operation runs its transitions to the end
//! before the next one starts.
mod cache;
mod conform;
mod descent;
mod expand;
mod key;
mod laws;
mod node;
mod order;

pub use self::cache::{
    cache_slot, capped, first_max, hist_at, level_fits, level_is_fit, wanted_level, Cache,
    CacheLevel, DEPTHS,
    FIRST_CACHE_LEVEL, MAX_MISSES, MISS_COUNTERS,
};
pub use self::key::{hash_low_bytes, hash_of_bytes, low_bytes, same_bytes};
pub use self::laws::{
    held_after, law_distinct_inserts_all_held, law_held_was_inserted, law_insert_extends,
    law_last_wins, law_never_inserted, named,
};
pub use self::node::{
    can_share, compatible, groups_differ, is_node_null, lemma_low_bits, lemma_part_sym,
    low_bits_differ, makeanode, node_type_eq, on_path, part_at, parted_at_root, separable,
    separable_from, slot_index, slot_of, step_width, tell_apart, Kind, Meta, Node, Target,
    LOW_BITS, NARROW, NULL, WIDE,
};
use vstd::prelude::*;

verus! {

/// A value: it can be copied and compared.
pub trait TrieData: Clone + Copy + Eq + PartialEq {
}

/// Every type that can be copied and compared is a value.
impl<T> TrieData for T where T: Clone + Copy + Eq + PartialEq {
}

/// A key: a copyable value with an identity, by which keys are told apart,
/// and a hash code that is a function of the identity.
pub trait TrieKey: Copy + Sized {
    /// What two keys share exactly when they are the same key.
    type Id;

    /// The identity of the key.
    spec fn id(self) -> Self::Id;

    /// The hash code of the keys of one identity.
    spec fn hash_of(id: Self::Id) -> u64;

    /// The hash code of the key.
    fn hash_code(&self) -> (h: u64)
        ensures
            h == Self::hash_of(self.id()),
    ;

    /// Whether the two keys are the same key.
    fn same(&self, other: &Self) -> (r: bool)
        ensures
            r == (self.id() == other.id()),
    ;
}

/// The trie: the arena, the address of the root, and the cache.
pub struct LockfreeTrie<K: TrieKey, V: TrieData> {
    root: usize,
    mem: Vec<Node<K, V>>,
    cache: Cache,
    meta: Ghost<Seq<Meta>>,
}

impl<K: TrieKey, V: TrieData> View for LockfreeTrie<K, V> {
    type V = Map<K::Id, V>;

    /// The values held, by the identity of their keys.
    closed spec fn view(&self) -> Map<K::Id, V> {
        Map::new(
            |id: K::Id| self.lookup_from(self.root, id) is Some,
            |id: K::Id| self.lookup_from(self.root, id)->Some_0,
        )
    }
}

impl<K: TrieKey, V: TrieData> LockfreeTrie<K, V> {
    /// The trie between two operations: the arena conforms, no expansion is
    /// in course, and any two keys held part in a wide array node that the
    /// descent from the root reaches through wide array nodes, or have
    /// hashes that narrow array nodes can tell apart.
    pub closed spec fn wf(&self) -> bool {
        &&& self.inv(0, None)
        &&& self.settled(0, self.root, NULL)
        &&& self.apart_below(self.root)
        &&& self.cache.wf()
    }

    /// A key of identity `id` can be held with a key of the hash `h`: narrow
    /// array nodes can tell the two hashes apart, or the two part in a wide
    /// array node, one that the descent from the root reaches through
    /// wide array nodes or that the insertion of `id` puts there in the
    /// place of a narrow one.
    pub open spec fn takes(&self, h: u64, id: K::Id) -> bool {
        self.parts(self.root_spec(), h, K::hash_of(id)) || self.makes_room(self.root_spec(), id, h)
    }

    /// The trie can take a key of identity `id`: it can be held with every
    /// other key that the trie holds.
    pub open spec fn admits(&self, id: K::Id) -> bool {
        forall|other: K::Id|
            #[trigger] self@.contains_key(other) && other != id ==> self.takes(
                K::hash_of(other),
                id,
            )
    }

    /// The value held for `id`, if any.
    pub open spec fn get_spec(&self, id: K::Id) -> Option<V> {
        if self@.contains_key(id) {
            Some(self@[id])
        } else {
            None
        }
    }

    /// An empty trie.
    pub fn new() -> (t: Self)
        ensures
            t.wf(),
            t@ == Map::<K::Id, V>::empty(),
            t.cache_level_spec() is None,
            t.is_arr(t.root_spec()),
            t.slots(t.root_spec()) == Seq::new(WIDE as nat, |j: int| NULL),
            t.cache_spec().levels@.len() == 0,
    {
        let mut t = LockfreeTrie {
            root: 0,
            mem: Vec::new(),
            cache: Cache::new(),
            meta: Ghost(Seq::empty()),
        };
        let root = t.allocate(
            Node::ANode(makeanode(WIDE)),
            Ghost(Meta { path: Seq::empty(), retired: false, upto: 0 }),
        );
        t.root = root;
        proof {
            assert(t.nodes().len() == 1);
            assert(t.node_typed(0)) by {
                assert forall|j: int| 0 <= j < t.slots(0).len() implies t.slot_typed(
                    #[trigger] t.slots(0)[j],
                ) by {}
            }
            assert(t.node_ok(0, None, 0)) by {
                assert forall|j: int| 0 <= j < t.slots(0).len() implies #[trigger] t.slot_ok(
                    0,
                    None,
                    0,
                    j,
                ) by {}
            }
            assert(t.inj());
            assert forall|id: K::Id| t.lookup_from(0, id) is None by {
                let j = t.slot_for(0, id);
                if 0 <= j < t.slots(0).len() {
                    assert(t.slots(0)[j] == NULL);
                }
            }
            assert(t@ =~= Map::<K::Id, V>::empty());
        }
        t
    }

    /// Puts `val` under `key`, in place of the value held for the key if
    /// there is one. Returns `true` once the entry is in place.
    ///
    /// A descent that meets a frozen slot or an expansion in course gives
    /// up, and the insertion starts over from the root. With the trie held
    /// by exclusive reference no descent meets one.
    ///
    /// The array nodes that the descent for the key passed before are
    /// passed after, as wide as they were, but the last: where its slot for
    /// the key held a data node of another key it is wide afterwards, a
    /// narrow one having been replaced.
    pub fn insert(&mut self, key: K, val: V) -> (r: bool)
        requires
            old(self).wf(),
            old(self).admits(key.id()),
        ensures
            r,
            final(self).wf(),
            final(self)@ == old(self)@.insert(key.id(), val),
            final(self).cache_spec() == old(self).cache_spec(),
            final(self).cache_level_spec() == old(self).cache_level_spec(),
            final(self).root_spec() == old(self).root_spec(),
            old(self).widths_after(final(self), old(self).root_spec(), old(self).root_spec(), key.id()),
        decreases 0int,
    {
        let ghost s0 = *self;
        let h = key.hash_code();
        let root = self.root;
        proof {
            s0.lemma_view();
            assert(s0.node_ok(0, None, root));
            assert(s0.admits_below(root, key.id())) by {
                assert forall|id: K::Id| #[trigger]
                    s0.holds(root, id) && id != key.id() implies s0.parts(
                    root,
                    K::hash_of(id),
                    K::hash_of(key.id()),
                ) || s0.makes_room(root, key.id(), K::hash_of(id)) by {
                    assert(s0@.contains_key(id));
                    assert(s0.takes(K::hash_of(id), key.id()));
                }
            }
        }
        if self._insert(key, val, h, 0, root, None, Ghost(0), Ghost(root)) {
            proof {
                self.lemma_view();
                assert(self.apart_below(root)) by {
                    assert forall|id1: K::Id, id2: K::Id|
                        #![trigger self.lookup_from(root, id1), self.lookup_from(root, id2)]
                        self.holds(root, id1) && self.holds(root, id2) && id1
                            != id2 implies self.parts(root, K::hash_of(id1), K::hash_of(id2)) by {
                        let h1 = K::hash_of(id1);
                        let h2 = K::hash_of(id2);
                        if id1 != key.id() {
                            assert(s0.holds(root, id1));
                        }
                        if id2 != key.id() {
                            assert(s0.holds(root, id2));
                        }
                        if id1 == key.id() {
                            assert(s0@.contains_key(id2));
                            assert(s0.takes(h2, id1));
                            if separable(h2, h1) {
                                Self::lemma_separable_sym(h2, h1);
                            } else if s0.parts(root, h2, h1) {
                                let j = choose|j: int| #[trigger] s0.parts_at(root, h2, h1, j);
                                Self::lemma_run_kept(&s0, self, 0, None, root, h2, j);
                                self.lemma_run_agree(root, h2, h1, j);
                                lemma_part_sym(h2, h1, 0, j);
                                assert(self.parts_at(root, h1, h2, j));
                            } else {
                                let j = choose|j: int| #[trigger] s0.room_at(root, id1, h2, j);
                                assert(s0.turn_from(root, id1, j));
                                assert(self.run_from(root, h1, j));
                                lemma_part_sym(h2, h1, 0, j);
                                assert(self.parts_at(root, h1, h2, j));
                            }
                        } else if id2 == key.id() {
                            assert(s0@.contains_key(id1));
                            assert(s0.takes(h1, id2));
                            if separable(h1, h2) {
                            } else if s0.parts(root, h1, h2) {
                                let j = choose|j: int| #[trigger] s0.parts_at(root, h1, h2, j);
                                Self::lemma_run_kept(&s0, self, 0, None, root, h1, j);
                                assert(self.parts_at(root, h1, h2, j));
                            } else {
                                let j = choose|j: int| #[trigger] s0.room_at(root, id2, h1, j);
                                assert(s0.turn_from(root, id2, j));
                                assert(self.run_from(root, h2, j));
                                self.lemma_run_agree(root, h1, h2, j);
                                assert(self.parts_at(root, h1, h2, j));
                            }
                        } else {
                            assert(s0.parts(root, h1, h2));
                            if !separable(h1, h2) {
                                let j = choose|j: int| #[trigger] s0.parts_at(root, h1, h2, j);
                                Self::lemma_run_kept(&s0, self, 0, None, root, h1, j);
                                assert(self.parts_at(root, h1, h2, j));
                            }
                        }
                    }
                }
                assert(self@ =~= s0@.insert(key.id(), val)) by {
                    assert forall|id: K::Id| #[trigger]
                        self@.contains_key(id) == s0@.insert(key.id(), val).contains_key(id) by {
                        assert(self.get_spec(id) == self.lookup_from(root, id));
                        assert(s0.get_spec(id) == s0.lookup_from(root, id));
                    }
                    assert forall|id: K::Id| #[trigger] self@.contains_key(id) implies self@[id]
                        == s0@.insert(key.id(), val)[id] by {
                        assert(self.get_spec(id) == self.lookup_from(root, id));
                        assert(s0.get_spec(id) == s0.lookup_from(root, id));
                    }
                }
            }
            true
        } else {
            self.insert(key, val)
        }
    }

    /// Puts `val` under `key` if the trie can take the key, and says whether
    /// it could; if not, the trie stays as it is.
    pub fn try_insert(&mut self, key: K, val: V) -> (r: bool)
        requires
            old(self).wf(),
        ensures
            final(self).wf(),
            r == old(self).admits(key.id()),
            r ==> final(self)@ == old(self)@.insert(key.id(), val),
            r ==> old(self).widths_after(
                final(self),
                old(self).root_spec(),
                old(self).root_spec(),
                key.id(),
            ),
            !r ==> *final(self) == *old(self),
            final(self).cache_spec() == old(self).cache_spec(),
            final(self).cache_level_spec() == old(self).cache_level_spec(),
            final(self).root_spec() == old(self).root_spec(),
    {
        if self.admits_key(&key) {
            self.insert(key, val)
        } else {
            false
        }
    }

    /// Keys whose hashes part at the root, or can be told apart by narrow
    /// array nodes, can be held together whatever else the trie holds.
    pub proof fn law_compatible_is_taken(&self, h: u64, id: K::Id)
        requires
            self.wf(),
            compatible(h, K::hash_of(id)),
        ensures
            self.takes(h, id),
    {
        let root = self.root;
        if !separable(h, K::hash_of(id)) {
            assert(self.node_ok(0, None, root));
            assert(self.parts_at(root, h, K::hash_of(id), 0));
        }
    }

    /// A key that the trie holds is one it can take: to put a value in place
    /// of the one held asks nothing of the key.
    pub proof fn law_held_is_admitted(&self, id: K::Id)
        requires
            self.wf(),
            self@.contains_key(id),
        ensures
            self.admits(id),
    {
        self.lemma_view();
        let root = self.root;
        assert forall|other: K::Id|
            #[trigger] self@.contains_key(other) && other != id implies self.takes(
            K::hash_of(other),
            id,
        ) by {
            assert(self.holds(root, other) && self.holds(root, id));
            assert(self.parts(root, K::hash_of(other), K::hash_of(id)));
        }
    }

    /// Whether the trie can take `key`: whether it can be held with every
    /// other key that the trie holds.
    pub fn admits_key(&self, key: &K) -> (r: bool)
        requires
            self.wf(),
        ensures
            r == self.admits(key.id()),
    {
        let h = key.hash_code();
        proof {
            self.lemma_view();
            assert(self.node_ok(0, None, self.root));
        }
        let clashes = self._clashes(key, h, 0, self.root, false);
        proof {
            if clashes {
                let id = choose|id: K::Id| #[trigger] self.clash(false, self.root, key.id(), id);
                assert(self@.contains_key(id));
            } else {
                assert forall|other: K::Id|
                    #[trigger] self@.contains_key(other) && other != key.id() implies self.takes(
                    K::hash_of(other),
                    key.id(),
                ) by {
                    assert(self.holds(self.root, other));
                    assert(!self.clash(false, self.root, key.id(), other));
                }
            }
        }
        !clashes
    }

    /// The value held for `key`, if any. Looks into the cache first; what
    /// the cache holds never changes the answer.
    pub fn lookup(&mut self, key: &K) -> (r: Option<V>)
        requires
            old(self).wf(),
        ensures
            final(self).wf(),
            final(self)@ == old(self)@,
            r == old(self).get_spec(key.id()),
            old(self).same_trie(final(self)),
            old(self).looked_up(final(self), key.id(), 0),
    {
        self.lookup_on(key, 0)
    }

    /// The value held for `key`, if any. Looks into the cache first; what
    /// the cache holds never changes the answer. The miss, if the descent
    /// counts one, is counted for the worker `worker`.
    ///
    /// A cache level is asked by the hash prefix of its length. A data node
    /// found there answers if it is of the key and nothing has replaced or
    /// frozen it. An array node found there, unless the slot of the key in
    /// it holds a frozen data node, sends the descent from the root on its
    /// way with this level to fill. Else the older level is asked, and
    /// after the oldest the descent starts with the newest level to fill.
    pub fn lookup_on(&mut self, key: &K, worker: u64) -> (r: Option<V>)
        requires
            old(self).wf(),
        ensures
            final(self).wf(),
            final(self)@ == old(self)@,
            r == old(self).get_spec(key.id()),
            old(self).same_trie(final(self)),
            old(self).looked_up(final(self), key.id(), worker),
    {
        let ghost s0 = *self;
        let h = key.hash_code();
        let root = self.root;
        proof {
            s0.lemma_view();
            assert(s0.node_ok(0, None, root));
        }
        let mut cache_head = self.cache.head;
        if cache_head == NULL {
            let r = self._lookup(
                key,
                h,
                0,
                root,
                NULL,
                Some(FIRST_CACHE_LEVEL),
                worker,
                Ghost(0),
                Ghost(None),
            );
            proof {
                Self::lemma_same_trie(&s0, self, 0, None);
            }
            r
        } else {
            let head = cache_head;
            let top_level = self.cache.levels[head].level;
            while cache_head != NULL
                invariant
                    *self == s0,
                    s0 == *old(self),
                    s0.wf(),
                    h == K::hash_of(key.id()),
                    root == s0.root,
                    head < s0.cache.levels@.len(),
                    cache_head == NULL || cache_head < s0.cache.levels@.len(),
                    head == s0.cache.head,
                    top_level == s0.cache.levels@[head as int].level,
                    s0.asked(&s0.cache, head, key.id(), h) == s0.asked(
                        &s0.cache,
                        cache_head,
                        key.id(),
                        h,
                    ),
                    forall|id: K::Id| #[trigger] s0.get_spec(id) == s0.lookup_from(s0.root, id),
                decreases
                        (if cache_head == NULL {
                            0int
                        } else {
                            cache_head + 1
                        }),
            {
                let length = self.cache.levels[cache_head].nodes.len();
                let level = self.cache.levels[cache_head].level;
                proof {
                    assert(s0.cache.levels@[cache_head as int].wf());
                    vstd::arithmetic::power2::lemma_pow2_pos(level as nat);
                    vstd::bits::lemma_u64_low_bits_mask_is_mod(h, level as nat);
                    vstd::arithmetic::div_mod::lemma_mod_bound(h as int, length as int);
                }
                let pos = (h & ((length - 1) as u64)) as usize;
                let cachee_ptr = self.cache.levels[cache_head].nodes[pos];
                if cachee_ptr != NULL && cachee_ptr < self.mem.len() {
                    let kind = self.kind_at(cachee_ptr);
                    if kind == Kind::Data {
                        proof {
                            assert(s0.node_typed(cachee_ptr));
                        }
                        let txn = self.get_txn(cachee_ptr);
                        if self.kind_at(txn) == Kind::NoTxn {
                            match self.get_data(cachee_ptr) {
                                Some((_hash, okey, oval)) => {
                                    if okey.same(key) {
                                        proof {
                                            s0.lemma_alive(cachee_ptr);
                                        }
                                        return Some(oval);
                                    }
                                },
                                None => {},
                            }
                        }
                    } else if kind == Kind::Array {
                        proof {
                            assert(s0.node_typed(cachee_ptr));
                        }
                        let alen = self.get_ary_length(cachee_ptr);
                        let cpos = slot_of(h, level, alen);
                        let oldptr = self.get_oldptr(cachee_ptr, cpos);
                        let stale = self.is_frozen_data(oldptr);
                        if !stale {
                            let r = self._lookup(
                                key,
                                h,
                                0,
                                root,
                                cache_head,
                                Some(level),
                                worker,
                                Ghost(0),
                                Ghost(None),
                            );
                            proof {
                                Self::lemma_same_trie(&s0, self, 0, None);
                            }
                            return r;
                        }
                    }
                }
                cache_head = self.cache.levels[cache_head].parent;
            }
            let r = self._lookup(
                key,
                h,
                0,
                root,
                head,
                Some(top_level),
                worker,
                Ghost(0),
                Ghost(None),
            );
            proof {
                Self::lemma_same_trie(&s0, self, 0, None);
            }
            r
        }
    }

    /// The level of the newest cache level, if the cache has one.
    pub closed spec fn cache_level_spec(&self) -> Option<u8> {
        if self.cache.head == NULL {
            None
        } else {
            Some(self.cache.levels@[self.cache.head as int].level)
        }
    }

    /// The level of the newest cache level, if the cache has one.
    pub fn cache_level(&self) -> (r: Option<u8>)
        requires
            self.wf(),
        ensures
            r == self.cache_level_spec(),
    {
        if self.cache.head == NULL {
            None
        } else {
            Some(self.cache.levels[self.cache.head].level)
        }
    }

    /// Number of data nodes `k` levels below the root.
    pub closed spec fn census_spec(&self, k: int) -> nat {
        self.census(self.root, self.slots(self.root).len() as int, k)
    }

    /// The number of data nodes at each depth of the trie, each count
    /// stopping at the largest number it can hold.
    pub fn sample_levels(&self) -> (hist: Vec<u32>)
        requires
            self.wf(),
        ensures
            hist@.len() == DEPTHS,
            forall|k: int| 0 <= k < DEPTHS ==> #[trigger] hist@[k] == capped(self.census_spec(k) as int),
    {
        self._sample_snodes_levels(Ghost(0), Ghost(None))
    }

    /// The numbers of slots of the array nodes that a descent for `key`
    /// passes, from the root on.
    pub fn path_widths(&self, key: &K) -> (r: Vec<usize>)
        requires
            self.wf(),
        ensures
            r@ == self.widths_spec(self.root_spec(), K::hash_of(key.id())),
            r@.len() >= 1,
            r@[0] == WIDE,
    {
        let h = key.hash_code();
        let mut r: Vec<usize> = Vec::new();
        let mut cur = self.root;
        let mut lev: u8 = 0;
        let ghost mut done = false;
        proof {
            assert(self.node_ok(0, None, cur));
        }
        loop
            invariant_except_break
                self.wf(),
                self.is_arr(cur),
                self.depth(cur) <= 15,
                lev == 4 * self.depth(cur),
                r@ + self.widths_spec(cur, h) == self.widths_spec(self.root, h),
                r@.len() == 0 ==> cur == self.root,
                r@.len() > 0 ==> r@[0] == WIDE,
            ensures
                r@ == self.widths_spec(self.root, h),
                r@.len() >= 1,
                r@[0] == WIDE,
            decreases 16 - self.depth(cur),
        {
            proof {
                assert(self.node_typed(cur));
                assert(self.node_ok(0, None, cur));
            }
            let len = self.get_ary_length(cur);
            let pos = slot_of(h, lev, len);
            let c = self.get_oldptr(cur, pos);
            let ghost before = r@;
            r.push(len);
            proof {
                assert(self.slot_ok(0, None, cur, pos as int));
                assert(self.slot_typed(c));
                assert(self.child_path(cur, pos as int).len() == self.depth(cur) + 1);
            }
            if c != NULL && c < self.mem.len() && self.kind_at(c) == Kind::Array {
                proof {
                    assert(self.node_ok(0, None, c));
                    assert(self.widths_spec(cur, h) =~= seq![len] + self.widths_spec(c, h));
                    assert(r@ + self.widths_spec(c, h) =~= before + self.widths_spec(cur, h));
                }
                cur = c;
                lev = lev + 4;
            } else {
                proof {
                    assert(self.widths_spec(cur, h) =~= seq![len]);
                    assert(r@ =~= before + self.widths_spec(cur, h));
                }
                break ;
            }
        }
        r
    }

    /// Every slot and every `txn` of the arena holds what it may hold.
    pub open spec fn words_conform(&self) -> bool {
        forall|a: usize| self.valid(a) ==> #[trigger] self.node_typed(a)
    }

    /// Whether every slot and every `txn` of the arena holds what it may
    /// hold. A trie in order does.
    pub fn conforms(&self) -> (r: bool)
        ensures
            r == self.words_conform(),
            self.wf() ==> r,
    {
        let mut a: usize = 0;
        while a < self.mem.len()
            invariant
                a <= self.nodes().len(),
                forall|b: usize| b < a ==> #[trigger] self.node_typed(b),
            decreases self.nodes().len() - a,
        {
            if !self.node_conforms(a) {
                return false;
            }
            a += 1;
        }
        true
    }

    /// A trie in order conforms: each slot is empty or refers to a data,
    /// array, expansion, array-frozen or empty-frozen node, and each `txn`
    /// refers to the no-transaction or data-frozen marker or to the data or
    /// array node that replaces the data node.
    pub proof fn law_conforms(&self)
        requires
            self.wf(),
        ensures
            self.typed(),
            self.root_ok(),
    {
    }
}

// The arena and its single-word transitions.
impl<K: TrieKey, V: TrieData> LockfreeTrie<K, V> {
    /// The arena: the nodes by address.
    pub closed spec fn nodes(&self) -> Seq<Node<K, V>> {
        self.mem@
    }

    /// What is known of each node, by address.
    pub closed spec fn metas(&self) -> Seq<Meta> {
        self.meta@
    }

    /// The address of the root.
    pub closed spec fn root_spec(&self) -> usize {
        self.root
    }

    /// The cache.
    pub closed spec fn cache_spec(&self) -> Cache {
        self.cache
    }

    /// `a` is the address of a node.
    pub open spec fn valid(&self, a: usize) -> bool {
        a < self.nodes().len()
    }

    /// `a` is the address of an array node.
    pub open spec fn is_arr(&self, a: usize) -> bool {
        self.valid(a) && self.nodes()[a as int] is ANode
    }

    /// The slots of the array node at `a`.
    pub open spec fn slots(&self, a: usize) -> Seq<usize> {
        self.nodes()[a as int].slots()
    }

    /// The way from the root to the node at `a`.
    pub open spec fn path(&self, a: usize) -> Seq<(bool, int)> {
        self.metas()[a as int].path
    }

    /// The depth of the node at `a`: the number of array nodes above it.
    pub open spec fn depth(&self, a: usize) -> int {
        self.metas()[a as int].path.len() as int
    }

    /// Puts `node` into the arena and gives its address.
    fn allocate(&mut self, node: Node<K, V>, m: Ghost<Meta>) -> (a: usize)
        requires
            old(self).metas().len() == old(self).nodes().len(),
        ensures
            a == old(self).nodes().len(),
            a != NULL,
            !final(self).valid(NULL),
            final(self).nodes() == old(self).nodes().push(node),
            final(self).metas() == old(self).metas().push(m@),
            final(self).root == old(self).root,
            final(self).cache == old(self).cache,
    {
        let a = self.mem.len();
        self.mem.push(node);
        self.meta = Ghost(self.meta@.push(m@));
        let n = self.mem.len();
        assert(a + 1 == n);
        a
    }

    /// Notes that the slots of the array node `a` before `upto` have reached
    /// their frozen form, unless more of them are known to have. Changes
    /// nothing but what is known of `a`.
    fn mark_frozen(&mut self, Ghost(a): Ghost<usize>, Ghost(upto): Ghost<nat>)
        requires
            old(self).valid(a),
            old(self).metas().len() == old(self).nodes().len(),
        ensures
            final(self).nodes() == old(self).nodes(),
            final(self).metas() == old(self).metas().update(
                a as int,
                Meta {
                    upto: if old(self).metas()[a as int].upto >= upto {
                        old(self).metas()[a as int].upto
                    } else {
                        upto
                    },
                    ..old(self).metas()[a as int]
                },
            ),
            final(self).root == old(self).root,
            final(self).cache == old(self).cache,
            old(self).metas()[a as int].upto >= upto ==> *final(self) == *old(self),
    {
        proof {
            if self.meta@[a as int].upto >= upto {
                assert(self.meta@.update(a as int, self.meta@[a as int]) =~= self.meta@);
            }
        }
        self.meta = Ghost(
            self.meta@.update(
                a as int,
                Meta {
                    upto: if self.meta@[a as int].upto >= upto {
                        self.meta@[a as int].upto
                    } else {
                        upto
                    },
                    ..self.meta@[a as int]
                },
            ),
        );
    }

    /// Notes that the array node `a` has left the live trie, with none of
    /// its slots frozen. Changes nothing but what is known of `a`.
    fn mark_retired(&mut self, Ghost(a): Ghost<usize>)
        requires
            old(self).valid(a),
            old(self).metas().len() == old(self).nodes().len(),
        ensures
            final(self).nodes() == old(self).nodes(),
            final(self).metas() == old(self).metas().update(
                a as int,
                Meta { retired: true, upto: 0, ..old(self).metas()[a as int] },
            ),
            final(self).root == old(self).root,
            final(self).cache == old(self).cache,
    {
        self.meta = Ghost(
            self.meta@.update(a as int, Meta { retired: true, upto: 0, ..self.meta@[a as int] }),
        );
    }

    /// Number of slots of the array node `cur`.
    fn get_ary_length(&self, cur: usize) -> (len: usize)
        requires
            self.is_arr(cur),
        ensures
            len == self.slots(cur).len(),
    {
        match &self.mem[cur] {
            Node::ANode(a) => a.len(),
            _ => 1,
        }
    }

    /// The address in slot `pos` of the array node `cur`.
    fn get_oldptr(&self, cur: usize, pos: usize) -> (p: usize)
        requires
            self.is_arr(cur),
            pos < self.slots(cur).len(),
        ensures
            p == self.slots(cur)[pos as int],
    {
        match &self.mem[cur] {
            Node::ANode(a) => a[pos],
            _ => NULL,
        }
    }

    /// Whether slot `pos` of the array node `cur` is empty.
    fn is_oldptr_null(&self, cur: usize, pos: usize) -> (r: bool)
        requires
            self.is_arr(cur),
            pos < self.slots(cur).len(),
        ensures
            r == (self.slots(cur)[pos as int] == NULL),
    {
        is_node_null(self.get_oldptr(cur, pos))
    }

    /// Compare-and-swap on slot `pos` of the array node `cur`: the slot takes
    /// `new` if it held `expected`. Returns what it held.
    fn cas_slot(&mut self, cur: usize, pos: usize, expected: usize, new: usize) -> (was: usize)
        requires
            old(self).is_arr(cur),
            pos < old(self).slots(cur).len(),
        ensures
            was == old(self).slots(cur)[pos as int],
            final(self).nodes().len() == old(self).nodes().len(),
            final(self).metas() == old(self).metas(),
            final(self).root == old(self).root,
            final(self).cache == old(self).cache,
            final(self).is_arr(cur),
            final(self).slots(cur) == if was == expected {
                old(self).slots(cur).update(pos as int, new)
            } else {
                old(self).slots(cur)
            },
            forall|a: int|
                0 <= a < old(self).nodes().len() && a != cur ==> #[trigger] final(self).nodes()[a]
                    == old(self).nodes()[a],
    {
        match &mut self.mem[cur] {
            Node::ANode(a) => {
                let was = a[pos];
                if was == expected {
                    a[pos] = new;
                }
                assert(a@ =~= if was == expected {
                    old(self).slots(cur).update(pos as int, new)
                } else {
                    old(self).slots(cur)
                });
                was
            },
            _ => NULL,
        }
    }

    /// Compare-and-swap on the `txn` of the data node `sn`.
    fn cas_txn(&mut self, sn: usize, expected: usize, new: usize) -> (was: usize)
        requires
            old(self).valid(sn),
            old(self).nodes()[sn as int] is SNode,
        ensures
            was == old(self).nodes()[sn as int].txn(),
            final(self).nodes().len() == old(self).nodes().len(),
            final(self).metas() == old(self).metas(),
            final(self).root == old(self).root,
            final(self).cache == old(self).cache,
            old(self).nodes()[sn as int].kept_as(final(self).nodes()[sn as int]),
            final(self).nodes()[sn as int].txn() == if was == expected {
                new
            } else {
                was
            },
            forall|a: int|
                0 <= a < old(self).nodes().len() && a != sn ==> #[trigger] final(self).nodes()[a]
                    == old(self).nodes()[a],
    {
        match &mut self.mem[sn] {
            Node::SNode { txn, .. } => {
                let was = *txn;
                if was == expected {
                    *txn = new;
                }
                was
            },
            _ => NULL,
        }
    }

    /// Compare-and-swap on the `wide` of the expansion node `en`.
    fn cas_wide(&mut self, en: usize, expected: usize, new: usize) -> (was: usize)
        requires
            old(self).valid(en),
            old(self).nodes()[en as int] is ENode,
        ensures
            was == old(self).nodes()[en as int]->wide,
            final(self).nodes().len() == old(self).nodes().len(),
            final(self).metas() == old(self).metas(),
            final(self).root == old(self).root,
            final(self).cache == old(self).cache,
            old(self).nodes()[en as int].kept_as(final(self).nodes()[en as int]),
            final(self).nodes()[en as int]->wide == if was == expected {
                new
            } else {
                was
            },
            forall|a: int|
                0 <= a < old(self).nodes().len() && a != en ==> #[trigger] final(self).nodes()[a]
                    == old(self).nodes()[a],
    {
        match &mut self.mem[en] {
            Node::ENode { wide, .. } => {
                let was = *wide;
                if was == expected {
                    *wide = new;
                }
                was
            },
            _ => NULL,
        }
    }

    /// The variant of the node at `a`.
    fn kind_at(&self, a: usize) -> (k: Kind)
        requires
            self.valid(a),
        ensures
            k == self.nodes()[a as int].kind_spec(),
    {
        self.mem[a].kind()
    }

    /// The `txn` of the data node `sn`.
    fn get_txn(&self, sn: usize) -> (t: usize)
        requires
            self.valid(sn),
            self.nodes()[sn as int] is SNode,
        ensures
            t == self.nodes()[sn as int].txn(),
    {
        match &self.mem[sn] {
            Node::SNode { txn, .. } => *txn,
            _ => NULL,
        }
    }

    /// The array node that the frozen wrapper `f` wraps.
    fn get_frozen(&self, f: usize) -> (a: usize)
        requires
            self.valid(f),
            self.nodes()[f as int] is FNode,
        ensures
            a == self.nodes()[f as int]->frozen,
    {
        match &self.mem[f] {
            Node::FNode { frozen } => *frozen,
            _ => NULL,
        }
    }

    /// The narrow array node that the expansion node `enode` replaces.
    fn get_narrowptr(&self, enode: usize) -> (a: usize)
        requires
            self.valid(enode),
            self.nodes()[enode as int] is ENode,
        ensures
            a == self.nodes()[enode as int]->narrow,
    {
        match &self.mem[enode] {
            Node::ENode { narrow, .. } => *narrow,
            _ => NULL,
        }
    }

    /// The level of the array node that the expansion node `enode` replaces.
    fn get_enode_level(&self, enode: usize) -> (lev: u8)
        requires
            self.valid(enode),
            self.nodes()[enode as int] is ENode,
        ensures
            lev == self.nodes()[enode as int]->level,
    {
        match &self.mem[enode] {
            Node::ENode { level, .. } => *level,
            _ => 0,
        }
    }

    /// The `wide` of the expansion node `enode`.
    fn get_enode__wide(&self, enode: usize) -> (a: usize)
        requires
            self.valid(enode),
            self.nodes()[enode as int] is ENode,
        ensures
            a == self.nodes()[enode as int]->wide,
    {
        match &self.mem[enode] {
            Node::ENode { wide, .. } => *wide,
            _ => NULL,
        }
    }

    /// The array node in which the expansion node `enode` stands.
    fn get_enode_parentref(&self, enode: usize) -> (a: usize)
        requires
            self.valid(enode),
            self.nodes()[enode as int] is ENode,
        ensures
            a == self.nodes()[enode as int]->parent,
    {
        match &self.mem[enode] {
            Node::ENode { parent, .. } => *parent,
            _ => NULL,
        }
    }

    /// The slot in which the expansion node `enode` stands.
    fn get_enode_parentpos(&self, enode: usize) -> (pos: u8)
        requires
            self.valid(enode),
            self.nodes()[enode as int] is ENode,
        ensures
            pos == self.nodes()[enode as int]->parentpos,
    {
        match &self.mem[enode] {
            Node::ENode { parentpos, .. } => *parentpos,
            _ => 0,
        }
    }

    /// The hash, key and value of the data node `sn`.
    fn get_data(&self, sn: usize) -> (r: Option<(u64, K, V)>)
        requires
            self.valid(sn),
        ensures
            match self.nodes()[sn as int] {
                Node::SNode { hash, key, val, .. } => r == Some((hash, key, val)),
                _ => r is None,
            },
    {
        match &self.mem[sn] {
            Node::SNode { hash, key, val, .. } => Some((*hash, *key, *val)),
            _ => None,
        }
    }

    /// Whether `a` is the address of an array node.
    fn is_array(&self, a: usize) -> (r: bool)
        ensures
            r == self.is_arr(a),
    {
        a < self.mem.len() && self.kind_at(a) == Kind::Array
    }

    /// Whether `p` is the address of a data node whose `txn` is the
    /// data-frozen marker.
    fn is_frozen_data(&self, p: usize) -> (r: bool)
        requires
            self.typed(),
        ensures
            r == (self.valid(p) && self.nodes()[p as int] is SNode
                && self.nodes()[self.nodes()[p as int].txn() as int] is FSNode),
    {
        if p != NULL && p < self.mem.len() {
            if self.kind_at(p) == Kind::Data {
                let txn = self.get_txn(p);
                proof {
                    assert(self.node_typed(p));
                }
                self.kind_at(txn) == Kind::DataFrozen
            } else {
                false
            }
        } else {
            false
        }
    }

    /// Whether `c` may stand in a slot.
    fn slot_conforms(&self, c: usize) -> (r: bool)
        ensures
            r == self.slot_typed(c),
    {
        if c == NULL {
            true
        } else if c < self.mem.len() {
            let kind = self.kind_at(c);
            kind == Kind::Data || kind == Kind::Array || kind == Kind::Expansion || kind
                == Kind::ArrayFrozen || kind == Kind::EmptyFrozen
        } else {
            false
        }
    }

    /// Whether the node at `a` holds, in its slots or its words, what it
    /// may hold.
    fn node_conforms(&self, a: usize) -> (r: bool)
        requires
            self.valid(a),
        ensures
            r == self.node_typed(a),
    {
        match &self.mem[a] {
            Node::SNode { txn, .. } => {
                if *txn < self.mem.len() {
                    let kind = self.kind_at(*txn);
                    kind == Kind::NoTxn || kind == Kind::DataFrozen || kind == Kind::Data || kind
                        == Kind::Array
                } else {
                    false
                }
            },
            Node::ANode(slots) => {
                if slots.len() != NARROW && slots.len() != WIDE {
                    return false;
                }
                let mut i: usize = 0;
                while i < slots.len()
                    invariant
                        i <= slots@.len(),
                        slots@ == self.slots(a),
                        forall|j: int| 0 <= j < i ==> self.slot_typed(#[trigger] self.slots(a)[j]),
                    decreases slots@.len() - i,
                {
                    if !self.slot_conforms(slots[i]) {
                        return false;
                    }
                    i += 1;
                }
                true
            },
            Node::FNode { frozen } => self.is_array(*frozen) && *frozen < a,
            Node::ENode { parent, parentpos, narrow, wide, .. } => {
                if !self.is_array(*parent) || !self.is_array(*narrow) {
                    return false;
                }
                let plen = self.get_ary_length(*parent);
                (*parentpos as usize) < plen && (*wide == NULL || self.is_array(*wide)) && *parent
                    < a && *narrow < a
            },
            _ => true,
        }
    }
}

// Descents from the root, with the cache.
impl<K: TrieKey, V: TrieData> LockfreeTrie<K, V> {
    /// The view is what a descent from the root finds.
    proof fn lemma_view(&self)
        ensures
            forall|id: K::Id| #[trigger] self.get_spec(id) == self.lookup_from(self.root, id),
            forall|id: K::Id| #[trigger] self@.contains_key(id) == self.holds(self.root, id),
    {
        assert forall|id: K::Id| #[trigger] self.get_spec(id) == self.lookup_from(
            self.root,
            id,
        ) by {
            if self.lookup_from(self.root, id) is Some {
                assert(self@.contains_key(id));
            }
        }
    }

    /// The arena and the root are the same.
    pub open spec fn same_trie(&self, later: &Self) -> bool {
        &&& later.nodes() == self.nodes()
        &&& later.metas() == self.metas()
        &&& later.root_spec() == self.root_spec()
    }

    /// A trie with the same arena and root, and a cache in order, is in
    /// order and holds the same.
    proof fn lemma_same_trie(s1: &Self, s2: &Self, base: usize, hole: Option<(usize, int)>)
        requires
            s1.inv(base, hole),
            s1.same_trie(s2),
        ensures
            s2.inv(base, hole),
            forall|x: usize, id: K::Id| #[trigger] s2.lookup_from(x, id) == s1.lookup_from(x, id),
            s1.apart_below(s1.root_spec()) ==> s2.apart_below(s2.root_spec()),
            s1.settled(0, s1.root_spec(), NULL) ==> s2.settled(0, s2.root_spec(), NULL),
            s2@ == s1@,
    {
        if s1.settled(0, s1.root_spec(), NULL) {
            assert forall|x: usize| s2.valid(x) implies #[trigger] s2.settled_at(
                x,
                s2.root_spec(),
                NULL,
            ) by {
                assert(s1.settled_at(x, s1.root_spec(), NULL));
                if s1.held(x) {
                    s1.lemma_holder(x);
                    let (a, j) = s1.holder(x);
                    assert(s2.slots(a)[j] == x);
                }
            }
        }
        assert forall|a: usize| s2.valid(a) implies #[trigger] s2.node_typed(a) by {
            assert(s1.node_typed(a));
        }
        assert forall|a: usize| s2.valid(a) implies #[trigger] s2.node_ok(base, hole, a) by {
            assert(s1.node_ok(base, hole, a));
            if s1.nodes()[a as int] is ANode {
                assert forall|j: int| 0 <= j < s2.slots(a).len() implies #[trigger] s2.slot_ok(base, hole,
                    a,
                    j,
                ) by {
                    assert(s1.slot_ok(base, hole, a, j));
                }
            }
        }
        assert(s2.inj()) by {
            assert forall|a: usize, i: int, b: usize, j: int|
                #![trigger s2.slots(a)[i], s2.slots(b)[j]]
                s2.is_arr(a) && s2.is_arr(b) && 0 <= i < s2.slots(a).len() && 0 <= j < s2.slots(
                    b,
                ).len() && s2.slots(a)[i] == s2.slots(b)[j] && s2.slots(a)[i] != NULL implies a
                == b && i == j by {
                assert(s1.slots(a)[i] == s1.slots(b)[j]);
            }
        }
        assert forall|x: usize, id: K::Id| #[trigger] s2.lookup_from(x, id) == s1.lookup_from(
            x,
            id,
        ) by {
            Self::lemma_same_lookup(s1, s2, x, id);
        }
        assert(s2@ =~= s1@);
        if s1.apart_below(s1.root_spec()) {
            let r = s1.root_spec();
            assert forall|id1: K::Id, id2: K::Id|
                #![trigger s2.lookup_from(r, id1), s2.lookup_from(r, id2)]
                s2.holds(r, id1) && s2.holds(r, id2) && id1 != id2 implies s2.parts(
                r,
                K::hash_of(id1),
                K::hash_of(id2),
            ) by {
                assert(s1.holds(r, id1));
                assert(s1.holds(r, id2));
                assert(s1.parts(r, K::hash_of(id1), K::hash_of(id2)));
                if !separable(K::hash_of(id1), K::hash_of(id2)) {
                    let j = choose|j: int|
                        #[trigger] s1.parts_at(r, K::hash_of(id1), K::hash_of(id2), j);
                    Self::lemma_same_run(s1, s2, r, K::hash_of(id1), j);
                    assert(s2.parts_at(r, K::hash_of(id1), K::hash_of(id2), j));
                }
            }
        }
    }

    /// Tries with the same arena have the same runs of wide array nodes.
    proof fn lemma_same_run(s1: &Self, s2: &Self, x: usize, h: u64, j: int)
        requires
            s1.same_trie(s2),
        ensures
            s2.run_from(x, h, j) == s1.run_from(x, h, j),
        decreases 16 - s1.depth(x),
    {
        if s1.is_arr(x) && 0 <= s1.depth(x) <= 15 && s1.depth(x) < j && s1.depth(s1.next(x, h))
            == s1.depth(x) + 1 {
            Self::lemma_same_run(s1, s2, s1.next(x, h), h, j);
        }
    }

    /// Tries with the same arena and root find the same.
    proof fn lemma_same_lookup(s1: &Self, s2: &Self, x: usize, id: K::Id)
        requires
            s1.same_trie(s2),
        ensures
            s2.lookup_from(x, id) == s1.lookup_from(x, id),
        decreases 16 - s1.depth(x),
    {
        if s1.is_arr(x) && s1.depth(x) <= 15 && 0 <= s1.slot_for(x, id) < s1.slots(x).len() {
            let t = s1.resolve(x, s1.slots(x)[s1.slot_for(x, id)]);
            assert(s2.resolve(x, s2.slots(x)[s2.slot_for(x, id)]) == t);
            match t {
                Target::Down(y) => {
                    if s1.depth(y) == s1.depth(x) + 1 && s1.depth(x) < 15 {
                        Self::lemma_same_lookup(s1, s2, y, id);
                    }
                },
                _ => {},
            }
        }
    }

    /// The key of identity `id`, found from `x`, is another than `id0`, and
    /// after an insertion of `id0` the two could meet in a narrow array
    /// node that cannot tell their hashes apart. Below a narrow array node,
    /// where `pure` is set, only the low bits of the groups part two keys.
    pub open spec fn clash(&self, pure: bool, x: usize, id0: K::Id, id: K::Id) -> bool {
        &&& self.holds(x, id)
        &&& id != id0
        &&& if pure {
            !separable(K::hash_of(id), K::hash_of(id0))
        } else {
            !self.parts(x, K::hash_of(id), K::hash_of(id0)) && !self.makes_room(
                x,
                id0,
                K::hash_of(id),
            )
        }
    }

    /// A key found from the array node `c` in the slot `pos` of `cur`
    /// clashes with `id0` below `cur` exactly if it does below `c`.
    proof fn lemma_clash_down(&self, cur: usize, pos: int, c: usize, id0: K::Id, id: K::Id)
        requires
            self.inv(0, None),
            self.live_arr(cur),
            0 <= pos < self.slots(cur).len(),
            self.slots(cur)[pos] == c,
            self.is_arr(c),
            self.slot_for(cur, id0) == pos,
            self.holds(c, id),
            id != id0,
        ensures
            self.holds(cur, id),
            self.slot_for(cur, id) == pos,
            self.clash(false, cur, id0, id) == self.clash(self.slots(cur).len() == NARROW, c, id0, id),
    {
        let h = K::hash_of(id0);
        let hi = K::hash_of(id);
        let d = self.depth(cur);
        assert(self.node_ok(0, None, cur));
        assert(self.node_typed(cur));
        assert(self.slot_ok(0, None, cur, pos));
        assert(self.node_ok(0, None, c));
        assert(self.child_path(cur, pos).len() == d + 1);
        assert(self.resolve(cur, c) == Target::<K::Id, V>::Down(c));
        self.lemma_found_up(0, None, cur, pos, c, id);
        assert(self.next(cur, hi) == c);
        assert(self.next(cur, h) == c);
        if self.slots(cur).len() == NARROW {
            assert(!self.collides(cur, id0));
            assert forall|j: int| !#[trigger] self.parts_at(cur, hi, h, j) by {}
            assert forall|j: int| !#[trigger] self.room_at(cur, id0, hi, j) by {}
        } else {
            assert(!groups_differ(hi, h, d));
            assert forall|j: int| #[trigger]
                self.parts_at(cur, hi, h, j) == self.parts_at(c, hi, h, j) by {
                if self.parts_at(c, hi, h, j) {
                    assert forall|i: int| d <= i < j implies !#[trigger] groups_differ(hi, h, i) by {
                        if i > d {
                            assert(!groups_differ(hi, h, i));
                        }
                    }
                }
            }
            assert forall|j: int| #[trigger]
                self.room_at(cur, id0, hi, j) == self.room_at(c, id0, hi, j) by {
                if self.room_at(c, id0, hi, j) {
                    assert forall|i: int| d <= i < j implies !#[trigger] groups_differ(hi, h, i) by {
                        if i > d {
                            assert(!groups_differ(hi, h, i));
                        }
                    }
                }
            }
            if self.parts(cur, hi, h) && !separable(hi, h) {
                let j = choose|j: int| #[trigger] self.parts_at(cur, hi, h, j);
                assert(self.parts_at(c, hi, h, j));
            }
            if self.parts(c, hi, h) && !separable(hi, h) {
                let j = choose|j: int| #[trigger] self.parts_at(c, hi, h, j);
                assert(self.parts_at(cur, hi, h, j));
            }
            if self.makes_room(cur, id0, hi) {
                let j = choose|j: int| #[trigger] self.room_at(cur, id0, hi, j);
                assert(self.room_at(c, id0, hi, j));
            }
            if self.makes_room(c, id0, hi) {
                let j = choose|j: int| #[trigger] self.room_at(c, id0, hi, j);
                assert(self.room_at(cur, id0, hi, j));
            }
        }
    }

    /// Whether the key of the data node of hash `oh` and identity `other`
    /// in the slot `pos` of `cur`, the slot of `id0`, clashes with `id0`.
    proof fn lemma_clash_met(&self, cur: usize, pos: int, id0: K::Id, other: K::Id, oh: u64)
        requires
            self.inv(0, None),
            self.live_arr(cur),
            0 <= pos < self.slots(cur).len(),
            self.slot_for(cur, id0) == pos,
            self.valid(self.slots(cur)[pos]),
            self.nodes()[self.slots(cur)[pos] as int] matches Node::SNode { hash, key, .. }
                && hash == oh && key.id() == other,
            other != id0,
        ensures
            self.holds(cur, other),
            oh == K::hash_of(other),
            self.clash(false, cur, id0, other) == (!separable(oh, K::hash_of(id0)) && (self.slots(
                cur,
            ).len() == WIDE || !groups_differ(oh, K::hash_of(id0), self.depth(cur)))),
    {
        let h = K::hash_of(id0);
        let d = self.depth(cur);
        let c = self.slots(cur)[pos];
        assert(self.node_ok(0, None, cur));
        assert(self.node_typed(cur));
        assert(self.slot_ok(0, None, cur, pos));
        assert(self.node_ok(0, None, c));
        self.lemma_on_child_path(oh, cur, pos);
        Self::lemma_low_of_slot(oh, 4 * d, self.slots(cur).len() as int);
        Self::lemma_low_of_slot(h, 4 * d, self.slots(cur).len() as int);
        assert(self.holds(cur, other));
        assert(self.collides(cur, id0));
        if self.slots(cur).len() == WIDE {
            if self.parts(cur, oh, h) || self.makes_room(cur, id0, oh) {
                self.lemma_met_in_wide(cur, id0, oh);
            }
        } else {
            assert forall|j: int| !#[trigger] self.parts_at(cur, oh, h, j) by {}
            if groups_differ(oh, h, d) {
                assert(self.room_at(cur, id0, oh, d));
            } else {
                assert forall|j: int| !#[trigger] self.room_at(cur, id0, oh, j) by {}
            }
        }
    }

    /// Whether some key found from the live array node `cur` of level `lev`
    /// clashes with `key`, whose hash is `h`.
    fn _clashes(&self, key: &K, h: u64, lev: u8, cur: usize, pure: bool) -> (r: bool)
        requires
            self.inv(0, None),
            h == K::hash_of(key.id()),
            self.live_arr(cur),
            lev == 4 * self.depth(cur),
        ensures
            r == exists|id: K::Id| #[trigger] self.clash(pure, cur, key.id(), id),
        decreases 16 - self.depth(cur),
    {
        proof {
            assert(self.node_ok(0, None, cur));
            assert(self.node_typed(cur));
        }
        let len = self.get_ary_length(cur);
        let low = slot_of(h, lev, NARROW);
        let own = slot_of(h, lev, len);
        let ghost d = self.depth(cur);
        let mut j: usize = 0;
        while j < len
            invariant
                self.inv(0, None),
                own == slot_index(h, 4 * d, len as int),
                h == K::hash_of(key.id()),
                self.live_arr(cur),
                lev == 4 * self.depth(cur),
                d == self.depth(cur),
                d <= 15,
                len == self.slots(cur).len(),
                len == NARROW || len == WIDE,
                low == slot_index(h, 4 * d, NARROW as int),
                j <= len,
                forall|id: K::Id| #[trigger]
                    self.clash(pure, cur, key.id(), id) ==> self.slot_for(cur, id) >= j,
            decreases len - j,
        {
            let c = self.get_oldptr(cur, j);
            let ghost pos = j as int;
            proof {
                assert(self.node_ok(0, None, cur));
                assert(self.node_typed(cur));
                assert(self.slot_ok(0, None, cur, pos));
                assert(self.slot_typed(c));
                assert(self.child_path(cur, pos).len() == d + 1);
                Self::lemma_low_of_slot(h, 4 * d, len as int);
            }
            let mut found = false;
            let ghost mut witness: Option<K::Id> = None;
            if (if pure {
                j % NARROW == low
            } else {
                j == own
            }) && c != NULL {
                proof {
                    assert(self.node_typed(c));
                    assert(self.node_ok(0, None, c));
                }
                let kind = self.kind_at(c);
                if kind == Kind::Data {
                    match self.get_data(c) {
                        Some((oh, okey, _oval)) => {
                            proof {
                                self.lemma_on_child_path(oh, cur, pos);
                                assert(self.holds(cur, okey.id()));
                                if !pure && okey.id() != key.id() {
                                    self.lemma_clash_met(cur, pos, key.id(), okey.id(), oh);
                                }
                            }
                            if !okey.same(key) && !tell_apart(oh, h) && (pure || len == WIDE || slot_of(
                                oh,
                                lev,
                                WIDE,
                            ) == slot_of(h, lev, WIDE)) {
                                proof {
                                    witness = Some(okey.id());
                                    assert(self.clash(pure, cur, key.id(), okey.id()));
                                }
                                found = true;
                            }
                        },
                        None => {},
                    }
                } else if kind == Kind::Array {
                    let below = pure || len == NARROW;
                    found = self._clashes(key, h, lev + 4, c, below);
                    proof {
                        if found {
                            let id = choose|id: K::Id| #[trigger] self.clash(below, c, key.id(), id);
                            self.lemma_found_up(0, None, cur, pos, c, id);
                            if !pure {
                                self.lemma_clash_down(cur, pos, c, key.id(), id);
                            }
                            assert(self.clash(pure, cur, key.id(), id));
                        }
                    }
                }
            }
            if found {
                return true;
            }
            proof {
                assert forall|id: K::Id| #[trigger]
                    self.clash(pure, cur, key.id(), id) implies self.slot_for(cur, id) >= j + 1 by {
                    if self.slot_for(cur, id) == pos {
                        self.lemma_found_on_path(0, None, cur, id);
                        let hi = K::hash_of(id);
                        Self::lemma_low_of_slot(hi, 4 * d, len as int);
                        if j % NARROW != low {
                            assert(low_bits_differ(hi, h, d));
                            assert(separable(hi, h));
                        } else if !pure && j != own {
                            assert(groups_differ(hi, h, d));
                            assert(self.parts_at(cur, hi, h, d));
                        } else {
                            match self.resolve(cur, c) {
                                Target::Down(y) => {
                                    assert(y == c);
                                    assert(self.holds(c, id));
                                    if !pure {
                                        self.lemma_clash_down(cur, pos, c, key.id(), id);
                                    }
                                    assert(self.clash(pure || len == NARROW, c, key.id(), id));
                                },
                                _ => {},
                            }
                        }
                    }
                }
            }
            j += 1;
        }
        proof {
            assert forall|id: K::Id| !(#[trigger] self.clash(pure, cur, key.id(), id)) by {
                if self.clash(pure, cur, key.id(), id) {
                    self.lemma_found_on_path(0, None, cur, id);
                }
            }
        }
        false
    }

    /// The slot of the array node `c` that the hash `h` selects at the
    /// level `level` holds a data node that has been frozen.
    pub open spec fn stale(&self, c: usize, h: u64, level: u8) -> bool {
        let o = self.slots(c)[slot_index(h, level as int, self.slots(c).len() as int)];
        self.valid(o) && self.nodes()[o as int] is SNode
            && self.nodes()[self.nodes()[o as int].txn() as int] is FSNode
    }

    /// What a lookup for the key of identity `id` and hash `h` makes of
    /// the levels of `cache` from the level `at` on, towards the older
    /// ones: `None` where a level answers, with a data node of the key
    /// that nothing has replaced or frozen; else the level that the
    /// descent from the root is to fill, which is the first that holds an
    /// array node whose slot for the key is not stale, or the newest.
    pub open spec fn asked(&self, cache: &Cache, at: usize, id: K::Id, h: u64) -> Option<usize>
        decreases
                (if at == NULL {
                    0int
                } else {
                    at + 1
                }),
    {
        if at == NULL || at >= cache.levels@.len() {
            Some(cache.head)
        } else {
            let lv = cache.levels@[at as int];
            let c = lv.nodes@[cache_slot(lv.level, h)];
            let next = if lv.parent == NULL || lv.parent < at {
                self.asked(cache, lv.parent, id, h)
            } else {
                Some(cache.head)
            };
            if c != NULL && self.valid(c) {
                match self.nodes()[c as int] {
                    Node::SNode { key, txn, .. } => if self.nodes()[txn as int] is NoTxn && key.id()
                        == id {
                        None
                    } else {
                        next
                    },
                    Node::ANode(_) => if self.stale(c, h, lv.level) {
                        next
                    } else {
                        Some(at)
                    },
                    _ => next,
                }
            } else {
                next
            }
        }
    }

    /// `later` is the cache of this trie after a lookup for the key of
    /// identity `id` on behalf of `worker`: as it was where a cache level
    /// answered, and else what the descent from the root made of it.
    pub open spec fn looked_up(&self, later: &Self, id: K::Id, worker: u64) -> bool {
        let cache = self.cache_spec();
        let h = K::hash_of(id);
        match self.asked(&cache, cache.head, id, h) {
            None => later.cache_spec() == cache,
            Some(at) => later.descended(
                &cache,
                &later.cache_spec(),
                h,
                0,
                self.root_spec(),
                at,
                if at == NULL {
                    Some(FIRST_CACHE_LEVEL)
                } else {
                    Some(cache.levels@[at as int].level)
                },
                worker,
            ),
        }
    }

    /// `mid` is the cache `from` after a descent came to the array node
    /// `cur` of level `lev`: the level `cache` was offered `cur` if it is
    /// filled at `lev`.
    pub open spec fn entered(
        from: &Cache,
        mid: &Cache,
        h: u64,
        lev: u8,
        cur: usize,
        cache: usize,
        cache_lev: Option<u8>,
    ) -> bool {
        if cache_lev == Some(lev) {
            from.inhabited(mid, cache, cur, h, lev)
        } else {
            *mid == *from
        }
    }

    /// `mid` is the cache `from` after a descent met a data node at level
    /// `lev`: a miss of `worker` was counted if the level lies outside the
    /// reach of the cache level filled at `cache_lev`.
    pub open spec fn counted(
        &self,
        from: &Cache,
        mid: &Cache,
        lev: u8,
        cache_lev: Option<u8>,
        worker: u64,
    ) -> bool {
        if cache_lev is Some && !(cache_lev->Some_0 <= lev <= cache_lev->Some_0 + 4) {
            self.missed(from, mid, worker)
        } else {
            *mid == *from
        }
    }

    /// `later` is the cache `from` after the data node `c`, met at level
    /// `lev`, was offered to the level `cache` if that is filled one level
    /// below.
    pub open spec fn offered(
        from: &Cache,
        later: &Cache,
        h: u64,
        lev: u8,
        c: usize,
        cache: usize,
        cache_lev: Option<u8>,
    ) -> bool {
        if cache_lev is Some && lev + 4 == cache_lev->Some_0 {
            from.inhabited(
                later,
                if cache != NULL && cache < from.levels@.len() {
                    cache
                } else {
                    NULL
                },
                c,
                h,
                (lev + 4) as u8,
            )
        } else {
            *later == *from
        }
    }

    /// `later` is the cache `from` after a descent for the hash `h` from
    /// the array node `cur` of level `lev`, with the cache level `cache`
    /// to fill at `cache_lev` and misses counted for `worker`.
    pub open spec fn descended(
        &self,
        from: &Cache,
        later: &Cache,
        h: u64,
        lev: u8,
        cur: usize,
        cache: usize,
        cache_lev: Option<u8>,
        worker: u64,
    ) -> bool
        decreases 16 - self.depth(cur), 1int,
    {
        exists|mid: Cache|
            #![trigger Self::entered(from, &mid, h, lev, cur, cache, cache_lev)]
            Self::entered(from, &mid, h, lev, cur, cache, cache_lev) && self.went_on(
                &mid,
                later,
                h,
                lev,
                cur,
                cache,
                cache_lev,
                worker,
            )
    }

    /// `later` is the cache `mid` after a descent that stands in the array
    /// node `cur` went on from there: into the array node behind the slot
    /// of `h`, or to the data node in it, where it counts and offers.
    pub open spec fn went_on(
        &self,
        mid: &Cache,
        later: &Cache,
        h: u64,
        lev: u8,
        cur: usize,
        cache: usize,
        cache_lev: Option<u8>,
        worker: u64,
    ) -> bool
        decreases 16 - self.depth(cur), 0int,
    {
        let c = self.slots(cur)[slot_index(h, lev as int, self.slots(cur).len() as int)];
        if !self.is_arr(cur) || self.depth(cur) > 15 {
            *later == *mid
        } else {
            match self.resolve(cur, c) {
                Target::Down(y) => if self.depth(y) == self.depth(cur) + 1 && self.depth(cur) < 15 {
                    self.descended(mid, later, h, (lev + 4) as u8, y, cache, cache_lev, worker)
                } else {
                    *later == *mid
                },
                Target::Leaf(_, _) => exists|told: Cache|
                    #![trigger self.counted(mid, &told, lev, cache_lev, worker)]
                    self.counted(mid, &told, lev, cache_lev, worker) && Self::offered(
                        &told,
                        later,
                        h,
                        lev,
                        c,
                        cache,
                        cache_lev,
                    ),
                Target::Miss => *later == *mid,
            }
        }
    }

    /// The value found for `key` by a descent from the array node `cur` of
    /// level `lev`. On the way the cache level `cache`, a level for
    /// `cache_lev`, takes the node met at that level, and a data node met
    /// outside its reach counts as a miss.
    fn _lookup(
        &mut self,
        key: &K,
        h: u64,
        lev: u8,
        cur: usize,
        cache: usize,
        cache_lev: Option<u8>,
        worker: u64,
        Ghost(base): Ghost<usize>,
        Ghost(hole): Ghost<Option<(usize, int)>>,
    ) -> (r: Option<V>)
        requires
            old(self).inv(base, hole),
            old(self).cache.wf(),
            h == K::hash_of(key.id()),
            old(self).is_arr(cur),
            lev == 4 * old(self).depth(cur),
            cache == NULL || cache < old(self).cache.levels@.len(),
        ensures
            old(self).same_trie(final(self)),
            final(self).inv(base, hole),
            final(self).cache.wf(),
            r == old(self).lookup_from(cur, key.id()),
            final(self).descended(
                &old(self).cache,
                &final(self).cache,
                h,
                lev,
                cur,
                cache,
                cache_lev,
                worker,
            ),
        decreases 16 - old(self).depth(cur),
    {
        let ghost s0 = *self;
        proof {
            assert(s0.node_ok(base, hole, cur));
            assert(s0.node_typed(cur));
        }
        if cache_lev == Some(lev) {
            self._inhabit(cache, cur, h, lev);
        }
        let ghost c1 = self.cache;
        proof {
            Self::lemma_same_trie(&s0, self, base, hole);
            assert(Self::entered(&s0.cache, &c1, h, lev, cur, cache, cache_lev));
        }
        let len = self.get_ary_length(cur);
        let pos = slot_of(h, lev, len);
        let oldptr = self.get_oldptr(cur, pos);
        proof {
            assert(pos == s0.slot_for(cur, key.id()));
            assert(s0.slot_ok(base, hole, cur, pos as int));
            assert(s0.slot_typed(oldptr));
            assert(s0.child_path(cur, pos as int).len() == s0.depth(cur) + 1);
        }
        if oldptr == NULL {
            proof {
                assert(self.went_on(&c1, &self.cache, h, lev, cur, cache, cache_lev, worker));
            }
            None
        } else {
            proof {
                assert(s0.node_typed(oldptr));
                assert(s0.node_ok(base, hole, oldptr));
            }
            let kind = self.kind_at(oldptr);
            if kind == Kind::EmptyFrozen {
                proof {
                    assert(self.went_on(&c1, &self.cache, h, lev, cur, cache, cache_lev, worker));
                }
                None
            } else if kind == Kind::Array {
                proof {
                    assert(s0.depth(oldptr) <= 15);
                }
                let r = self._lookup(
                    key,
                    h,
                    lev + 4,
                    oldptr,
                    cache,
                    cache_lev,
                    worker,
                    Ghost(base),
                    Ghost(hole),
                );
                proof {
                    assert(self.went_on(&c1, &self.cache, h, lev, cur, cache, cache_lev, worker));
                }
                r
            } else if kind == Kind::Data {
                let ghost s1 = *self;
                match cache_lev {
                    Some(clev) => {
                        if !(clev <= lev && lev <= clev.saturating_add(4)) {
                            self._record_miss(worker, Ghost(base), Ghost(hole));
                            proof {
                                Self::lemma_same_trie(&s0, self, base, hole);
                            }
                        }
                        let ghost s2 = *self;
                        if lev + 4 == clev {
                            let at = if cache != NULL && cache < self.cache.levels.len() {
                                cache
                            } else {
                                NULL
                            };
                            self._inhabit(at, oldptr, h, lev + 4);
                            proof {
                                Self::lemma_same_trie(&s0, self, base, hole);
                            }
                        }
                        proof {
                            Self::lemma_same_hist(&s2, self);
                            assert(s2.counted(&c1, &s2.cache, lev, cache_lev, worker));
                            assert(self.counted(&c1, &s2.cache, lev, cache_lev, worker));
                            assert(Self::offered(
                                &s2.cache,
                                &self.cache,
                                h,
                                lev,
                                oldptr,
                                cache,
                                cache_lev,
                            ));
                        }
                    },
                    None => {
                        proof {
                            assert(self.counted(&c1, &c1, lev, cache_lev, worker));
                            assert(Self::offered(&c1, &self.cache, h, lev, oldptr, cache, cache_lev));
                        }
                    },
                }
                proof {
                    assert(self.went_on(&c1, &self.cache, h, lev, cur, cache, cache_lev, worker));
                }
                match self.get_data(oldptr) {
                    Some((_hash, okey, oval)) => {
                        if okey.same(key) {
                            Some(oval)
                        } else {
                            None
                        }
                    },
                    None => None,
                }
            } else if kind == Kind::Expansion {
                let narrow = self.get_narrowptr(oldptr);
                proof {
                    assert(s0.node_ok(base, hole, narrow));
                }
                let r = self._lookup(
                    key,
                    h,
                    lev + 4,
                    narrow,
                    cache,
                    cache_lev,
                    worker,
                    Ghost(base),
                    Ghost(hole),
                );
                proof {
                    assert(self.went_on(&c1, &self.cache, h, lev, cur, cache, cache_lev, worker));
                }
                r
            } else if kind == Kind::ArrayFrozen {
                let frozen = self.get_frozen(oldptr);
                proof {
                    assert(s0.node_ok(base, hole, frozen));
                }
                let r = self._lookup(
                    key,
                    h,
                    lev + 4,
                    frozen,
                    cache,
                    cache_lev,
                    worker,
                    Ghost(base),
                    Ghost(hole),
                );
                proof {
                    assert(self.went_on(&c1, &self.cache, h, lev, cur, cache, cache_lev, worker));
                }
                r
            } else {
                proof {
                    assert(self.went_on(&c1, &self.cache, h, lev, cur, cache, cache_lev, worker));
                }
                None
            }
        }
    }

    /// Writes the address `nv` of a node found at level `lev` into the cache
    /// level `cache`, if that is a level for `lev`. Without a cache level,
    /// and from `FIRST_CACHE_LEVEL` on, makes the first one.
    fn _inhabit(&mut self, cache: usize, nv: usize, hash: u64, lev: u8)
        requires
            old(self).cache.wf(),
            cache == NULL || cache < old(self).cache.levels@.len(),
        ensures
            old(self).same_trie(final(self)),
            final(self).cache.wf(),
            old(self).cache.inhabited(&final(self).cache, cache, nv, hash, lev),
        decreases
                (if cache == NULL {
                    1int
                } else {
                    0int
                }),
    {
        if cache != NULL {
            let level = self.cache.levels[cache].level;
            if level == lev {
                let length = self.cache.levels[cache].nodes.len();
                proof {
                    vstd::arithmetic::power2::lemma_pow2_pos(level as nat);
                    vstd::bits::lemma_u64_low_bits_mask_is_mod(hash, level as nat);
                    vstd::arithmetic::div_mod::lemma_mod_bound(hash as int, length as int);
                }
                let pos = (hash & ((length - 1) as u64)) as usize;
                let ghost before = self.cache;
                self.cache.levels[cache].nodes[pos] = nv;
                proof {
                    assert forall|i: int| 0 <= i < self.cache.levels@.len() implies (
                    #[trigger] self.cache.levels@[i]).wf() && (self.cache.levels@[i].parent == NULL
                        || self.cache.levels@[i].parent < i) by {
                        assert(before.levels@[i].wf());
                    }
                }
            }
        } else if lev >= FIRST_CACHE_LEVEL && level_is_fit(lev as usize) {
            if self.cache.head == NULL {
                let clevel = CacheLevel::new(lev, MISS_COUNTERS, NULL);
                let at = self.cache.levels.len();
                let ghost before = self.cache;
                self.cache.levels.push(clevel);
                self.cache.head = at;
                let count = self.cache.levels.len();
                proof {
                    assert(at + 1 == count);
                    assert forall|i: int| 0 <= i < self.cache.levels@.len() implies (
                    #[trigger] self.cache.levels@[i]).wf() && (self.cache.levels@[i].parent == NULL
                        || self.cache.levels@[i].parent < i) by {
                        if i < before.levels@.len() {
                            assert(before.levels@[i].wf());
                        }
                    }
                    assert(at != NULL);
                }
                let ghost mid = self.cache;
                self._inhabit(at, nv, hash, lev);
                proof {
                    assert forall|i: int| 0 <= i < before.levels@.len() implies #[trigger] self.cache.levels@[i]
                        == before.levels@[i] by {
                        assert(mid.levels@[i] == before.levels@[i]);
                    }
                }
            }
        }
    }

    /// Number of data nodes that stand `k` levels below the array node `x`,
    /// behind its first `upto` slots, reached through array nodes alone.
    pub open spec fn census(&self, x: usize, upto: int, k: int) -> nat
        decreases 16 - self.depth(x), 1int, upto,
    {
        if upto <= 0 || !self.is_arr(x) || self.depth(x) > 15 || upto > self.slots(x).len() {
            0
        } else {
            self.census(x, upto - 1, k) + self.census_slot(x, self.slots(x)[upto - 1], k)
        }
    }

    /// What the address `c` in a slot of `x` adds to the census.
    pub open spec fn census_slot(&self, x: usize, c: usize, k: int) -> nat
        decreases 16 - self.depth(x), 0int, 0int,
    {
        if c == NULL || !self.valid(c) {
            0
        } else {
            match self.nodes()[c as int] {
                Node::SNode { .. } => if k == 0 {
                    1
                } else {
                    0
                },
                Node::ANode(_) => if k > 0 && self.depth(c) == self.depth(x) + 1 && self.depth(x)
                    < 15 {
                    self.census(c, self.slots(c).len() as int, k - 1)
                } else {
                    0
                },
                _ => 0,
            }
        }
    }

    /// The histogram of the trie: for each depth, the number of data nodes
    /// at that depth, each count stopping at the largest number it can hold.
    pub open spec fn hist_spec(&self) -> Seq<u32> {
        Seq::new(
            DEPTHS as nat,
            |k: int|
                capped(
                    self.census(self.root_spec(), self.slots(self.root_spec()).len() as int, k) as int,
                ),
        )
    }

    /// Adds to `hist`, from entry `level` on, the census of the array node
    /// `node`: entry `level + k` grows by the number of data nodes `k`
    /// levels below `node`.
    fn _fill_hist(
        &self,
        hist: &mut Vec<u32>,
        node: usize,
        level: u8,
        Ghost(base): Ghost<usize>,
        Ghost(hole): Ghost<Option<(usize, int)>>,
    )
        requires
            self.typed(),
            self.is_arr(node),
            self.depth(node) <= 15,
            level == self.depth(node),
            old(hist)@.len() == DEPTHS,
            forall|a: usize| self.valid(a) ==> #[trigger] self.node_ok(base, hole, a),
        ensures
            final(hist)@.len() == DEPTHS,
            forall|i: int|
                0 <= i < DEPTHS ==> #[trigger] final(hist)@[i] == if i < level {
                    old(hist)@[i]
                } else {
                    capped(
                        old(hist)@[i] + self.census(
                            node,
                            self.slots(node).len() as int,
                            i - level,
                        ),
                    )
                },
        decreases 16 - self.depth(node),
    {
        let len = self.get_ary_length(node);
        let ghost h0 = hist@;
        let mut i: usize = 0;
        while i < len
            invariant
                self.typed(),
                self.is_arr(node),
                self.depth(node) <= 15,
                level == self.depth(node),
                forall|a: usize| self.valid(a) ==> #[trigger] self.node_ok(base, hole, a),
                len == self.slots(node).len(),
                i <= len,
                h0 == old(hist)@,
                hist@.len() == DEPTHS,
                forall|j: int|
                    0 <= j < DEPTHS ==> #[trigger] hist@[j] == if j < level {
                        h0[j]
                    } else {
                        capped(h0[j] + self.census(node, i as int, j - level))
                    },
            decreases len - i,
        {
            let vptr = self.get_oldptr(node, i);
            let ghost h1 = hist@;
            proof {
                assert(self.node_typed(node));
                assert(self.slot_typed(vptr));
                assert(self.node_ok(base, hole, node));
                assert(self.slot_ok(base, hole, node, i as int));
                assert forall|k: int| #[trigger]
                    self.census(node, i + 1, k) == self.census(node, i as int, k)
                        + self.census_slot(node, vptr, k) by {}
            }
            if vptr != NULL {
                let kind = self.kind_at(vptr);
                if kind == Kind::Data {
                    let old_count = hist[level as usize];
                    hist.set(level as usize, old_count.saturating_add(1));
                } else if kind == Kind::Array {
                    proof {
                        assert(self.child_path(node, i as int).len() == self.depth(node) + 1);
                        assert(self.node_ok(base, hole, vptr));
                    }
                    self._fill_hist(hist, vptr, level + 1, Ghost(base), Ghost(hole));
                }
            }
            proof {
                assert forall|j: int| 0 <= j < DEPTHS implies #[trigger] hist@[j] == if j < level {
                    h0[j]
                } else {
                    capped(h0[j] + self.census(node, i + 1, j - level))
                } by {
                    assert(self.census(node, i + 1, j - level) == self.census(
                        node,
                        i as int,
                        j - level,
                    ) + self.census_slot(node, vptr, j - level));
                    assert(h1[j] == if j < level {
                        h0[j]
                    } else {
                        capped(h0[j] + self.census(node, i as int, j - level))
                    });
                }
            }
            i += 1;
        }
    }

    /// The number of data nodes at each depth of the trie.
    fn _sample_snodes_levels(
        &self,
        Ghost(base): Ghost<usize>,
        Ghost(hole): Ghost<Option<(usize, int)>>,
    ) -> (hist: Vec<u32>)
        requires
            self.inv(base, hole),
        ensures
            hist@ == self.hist_spec(),
    {
        let mut hist: Vec<u32> = Vec::new();
        let mut k: usize = 0;
        while k < DEPTHS
            invariant
                k <= DEPTHS,
                hist@.len() == k,
                forall|j: int| 0 <= j < k ==> hist@[j] == 0,
            decreases DEPTHS - k,
        {
            hist.push(0);
            k += 1;
        }
        proof {
            assert(self.node_ok(base, hole, self.root));
        }
        self._fill_hist(&mut hist, self.root, 0, Ghost(base), Ghost(hole));
        proof {
            assert(hist@ =~= self.hist_spec());
        }
        hist
    }

    /// Makes a cache level for the trie level `level` the newest level of
    /// the cache, where `level` is one a cache level can have.
    fn _adjust_level(&mut self, level: usize)
        requires
            old(self).cache.wf(),
        ensures
            old(self).same_trie(final(self)),
            final(self).cache.wf(),
            old(self).cache.adjusted(&final(self).cache, Some(level as int)),
    {
        if level_is_fit(level) {
            let clevel = CacheLevel::new(level as u8, MISS_COUNTERS, self.cache.head);
            let at = self.cache.levels.len();
            let ghost before = self.cache;
            self.cache.levels.push(clevel);
            self.cache.head = at;
            let count = self.cache.levels.len();
            proof {
                assert(at + 1 == count);
                assert forall|i: int| 0 <= i < self.cache.levels@.len() implies (
                #[trigger] self.cache.levels@[i]).wf() && (self.cache.levels@[i].parent == NULL
                    || self.cache.levels@[i].parent < i) by {
                    if i < before.levels@.len() {
                        assert(before.levels@[i].wf());
                    }
                }
            }
        }
    }

    /// Counts the data nodes at each depth and, where the depth that holds
    /// most holds more than one and a half times what the depth of the cache
    /// level `cache` holds, makes a cache level for that depth.
    fn _sample_and_adjust(
        &mut self,
        cache: usize,
        Ghost(base): Ghost<usize>,
        Ghost(hole): Ghost<Option<(usize, int)>>,
    )
        requires
            old(self).inv(base, hole),
            old(self).cache.wf(),
            cache < old(self).cache.levels@.len(),
        ensures
            old(self).same_trie(final(self)),
            final(self).cache.wf(),
            old(self).cache.adjusted(
                &final(self).cache,
                wanted_level(old(self).hist_spec(), old(self).cache.levels@[cache as int].level),
            ),
    {
        let histogram = self._sample_snodes_levels(Ghost(base), Ghost(hole));
        let mut best: usize = 0;
        let mut i: usize = 0;
        while i < histogram.len()
            invariant
                histogram@.len() == DEPTHS,
                i <= histogram@.len(),
                best < histogram@.len(),
                best == first_max(histogram@, i as int),
            decreases histogram@.len() - i,
        {
            if histogram[i] > histogram[best] {
                best = i;
            }
            i += 1;
        }
        proof {
            assert(self.cache.levels@[cache as int].wf());
        }
        let prev: usize = self.cache.levels[cache].level as usize;
        let held: u32 = histogram[prev / 4];
        if 2 * (histogram[best] as u64) > 3 * (held as u64) {
            self._adjust_level(best * 4);
        }
    }

    /// `later` is the cache `from` after a miss of the worker `worker` in
    /// this trie: without a cache level nothing happens; else the worker's
    /// counter of the newest level goes up by one, or, if it stood above
    /// `MAX_MISSES`, back to zero, and the cache is adjusted to the
    /// histogram.
    pub open spec fn missed(&self, from: &Cache, later: &Cache, worker: u64) -> bool {
        let cache = *from;
        let head = cache.head as int;
        if cache.head == NULL {
            *later == cache
        } else {
            let id = (worker as int) % (cache.levels@[head].misses@.len() as int);
            let count = cache.levels@[head].misses@[id];
            if count > MAX_MISSES {
                exists|mid: Cache|
                    #![trigger cache.with_level(&mid, head)]
                    cache.with_level(&mid, head) && cache.levels@[head].with_count(
                        &mid.levels@[head],
                        id,
                        0,
                    ) && mid.adjusted(later, wanted_level(self.hist_spec(), cache.levels@[head].level))
            } else {
                cache.with_level(later, head) && cache.levels@[head].with_count(
                    &later.levels@[head],
                    id,
                    (count + 1) as u32,
                )
            }
        }
    }

    /// Counts a miss for the worker `worker`; after `MAX_MISSES` misses the
    /// counter starts anew and the cache is adjusted.
    fn _record_miss(
        &mut self,
        worker: u64,
        Ghost(base): Ghost<usize>,
        Ghost(hole): Ghost<Option<(usize, int)>>,
    )
        requires
            old(self).inv(base, hole),
            old(self).cache.wf(),
        ensures
            old(self).same_trie(final(self)),
            final(self).cache.wf(),
            old(self).missed(&old(self).cache, &final(self).cache, worker),
            final(self).missed(&old(self).cache, &final(self).cache, worker),
    {
        let levptr = self.cache.head;
        if levptr != NULL {
            let counters = self.cache.levels[levptr].misses.len();
            let counter_id: usize = (worker % (counters as u64)) as usize;
            let count: u32 = self.cache.levels[levptr].misses[counter_id];
            let ghost before = self.cache;
            if count > MAX_MISSES {
                self.cache.levels[levptr].misses[counter_id] = 0;
                let ghost mid = self.cache;
                proof {
                    assert forall|i: int| 0 <= i < self.cache.levels@.len() implies (
                    #[trigger] self.cache.levels@[i]).wf() && (self.cache.levels@[i].parent == NULL
                        || self.cache.levels@[i].parent < i) by {
                        assert(before.levels@[i].wf());
                    }
                    Self::lemma_same_trie(old(self), self, base, hole);
                    Self::lemma_same_hist(old(self), self);
                    assert(before.with_level(&mid, levptr as int));
                }
                self._sample_and_adjust(levptr, Ghost(base), Ghost(hole));
            } else {
                self.cache.levels[levptr].misses[counter_id] = count + 1;
                proof {
                    assert forall|i: int| 0 <= i < self.cache.levels@.len() implies (
                    #[trigger] self.cache.levels@[i]).wf() && (self.cache.levels@[i].parent == NULL
                        || self.cache.levels@[i].parent < i) by {
                        assert(before.levels@[i].wf());
                    }
                }
            }
        }
        proof {
            Self::lemma_same_hist(old(self), self);
            assert(old(self).missed(&old(self).cache, &self.cache, worker));
        }
    }

    /// Tries with the same arena and root have the same histogram.
    proof fn lemma_same_hist(s1: &Self, s2: &Self)
        requires
            s1.same_trie(s2),
        ensures
            s2.hist_spec() == s1.hist_spec(),
    {
        assert forall|k: int| 0 <= k < DEPTHS implies s2.census(
            s2.root_spec(),
            s2.slots(s2.root_spec()).len() as int,
            k,
        ) == s1.census(s1.root_spec(), s1.slots(s1.root_spec()).len() as int, k) by {
            Self::lemma_same_census(s1, s2, s1.root_spec(), s1.slots(s1.root_spec()).len() as int, k);
        }
        assert(s2.hist_spec() =~= s1.hist_spec());
    }

    /// Tries with the same arena and root count the same.
    proof fn lemma_same_census(s1: &Self, s2: &Self, x: usize, upto: int, k: int)
        requires
            s1.same_trie(s2),
        ensures
            s2.census(x, upto, k) == s1.census(x, upto, k),
        decreases 16 - s1.depth(x), 1int, upto,
    {
        if !(upto <= 0 || !s1.is_arr(x) || s1.depth(x) > 15 || upto > s1.slots(x).len()) {
            Self::lemma_same_census(s1, s2, x, upto - 1, k);
            let c = s1.slots(x)[upto - 1];
            if c != NULL && s1.valid(c) && s1.nodes()[c as int] is ANode && k > 0 && s1.depth(c)
                == s1.depth(x) + 1 && s1.depth(x) < 15 {
                Self::lemma_same_census(s1, s2, c, s1.slots(c).len() as int, k - 1);
            }
            assert(s2.census_slot(x, c, k) == s1.census_slot(x, c, k));
            assert(s1.census(x, upto, k) == s1.census(x, upto - 1, k) + s1.census_slot(x, c, k));
            assert(s2.census(x, upto, k) == s2.census(x, upto - 1, k) + s2.census_slot(x, c, k));
        } else {
            assert(s1.census(x, upto, k) == 0);
            assert(s2.census(x, upto, k) == 0);
        }
    }
}

} // verus!
