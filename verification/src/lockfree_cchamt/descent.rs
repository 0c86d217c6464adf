//! The descent from an array node to the value of a key, and the changes
//! of the arena that leave it as it was.
use crate::lockfree_cchamt::{
    groups_differ, low_bits_differ, on_path, part_at, separable, separable_from, slot_index,
    step_width, LockfreeTrie, Node, Target, TrieData, TrieKey, NARROW, NULL, WIDE,
};
use vstd::prelude::*;

verus! {

impl<K: TrieKey, V: TrieData> LockfreeTrie<K, V> {
    /// The array node `y` as the next stop of a descent that stands in `x`.
    pub open spec fn down(&self, x: usize, y: usize) -> Target<K::Id, V> {
        if self.is_arr(y) && self.depth(y) == self.depth(x) + 1 {
            Target::Down(y)
        } else {
            Target::Miss
        }
    }

    /// What a descent that stands in `x` finds behind the address `c`.
    pub open spec fn resolve(&self, x: usize, c: usize) -> Target<K::Id, V> {
        if c == NULL || !self.valid(c) {
            Target::Miss
        } else {
            match self.nodes()[c as int] {
                Node::SNode { key, val, .. } => Target::Leaf(key.id(), val),
                Node::ANode(_) => self.down(x, c),
                Node::FNode { frozen } => self.down(x, frozen),
                Node::ENode { narrow, .. } => self.down(x, narrow),
                _ => Target::Miss,
            }
        }
    }

    /// The slot of the array node `x` that the keys of identity `id` select.
    pub open spec fn slot_for(&self, x: usize, id: K::Id) -> int {
        slot_index(K::hash_of(id), 4 * self.depth(x), self.slots(x).len() as int)
    }

    /// The slot of the array node `x` for `id` holds a data node of another
    /// key.
    pub open spec fn collides(&self, x: usize, id: K::Id) -> bool {
        let c = self.slots(x)[self.slot_for(x, id)];
        &&& self.valid(c)
        &&& self.nodes()[c as int] matches Node::SNode { key, .. }
        &&& key.id() != id
    }

    /// The numbers of slots of the array nodes that a descent for the hash
    /// `h` passes from the array node `x` on.
    pub open spec fn widths_spec(&self, x: usize, h: u64) -> Seq<usize>
        decreases 16 - self.depth(x),
    {
        if !self.is_arr(x) || self.depth(x) > 15 {
            Seq::empty()
        } else {
            let w = self.slots(x).len();
            let c = self.slots(x)[slot_index(h, 4 * self.depth(x), w as int)];
            if (w == NARROW || w == WIDE) && self.is_arr(c) && self.depth(c) == self.depth(x) + 1 {
                seq![w as usize] + self.widths_spec(c, h)
            } else {
                seq![w as usize]
            }
        }
    }

    /// The last array node that a descent for the hash `h` passes from the
    /// array node `x` on.
    pub open spec fn last_stop(&self, x: usize, h: u64) -> usize
        decreases 16 - self.depth(x),
    {
        if !self.is_arr(x) || self.depth(x) > 15 {
            x
        } else {
            let w = self.slots(x).len();
            let c = self.slots(x)[slot_index(h, 4 * self.depth(x), w as int)];
            if (w == NARROW || w == WIDE) && self.is_arr(c) && self.depth(c) == self.depth(x) + 1 {
                self.last_stop(c, h)
            } else {
                x
            }
        }
    }

    /// `later` is this trie after an insertion of a key of identity `id`
    /// below the array node `x`, in whose place `y` stands now, as far
    /// as the widths on the way of the key go: the array nodes passed
    /// before are passed, as wide as they were, but the last, which is
    /// wide if its slot for the key held a data node of another key; only
    /// then can there be array nodes behind it.
    pub open spec fn widths_after(&self, later: &Self, x: usize, y: usize, id: K::Id) -> bool {
        let h = K::hash_of(id);
        let before = self.widths_spec(x, h);
        let after = later.widths_spec(y, h);
        let met = self.collides(self.last_stop(x, h), id);
        &&& before.len() >= 1
        &&& after.len() >= before.len()
        &&& forall|d: int| 0 <= d < before.len() - 1 ==> after[d] == before[d]
        &&& after[before.len() - 1] == if met {
            WIDE
        } else {
            before[before.len() - 1]
        }
        &&& !met ==> after.len() == before.len()
    }

    /// The value that a descent from the array node `x` finds for `id`.
    pub open spec fn lookup_from(&self, x: usize, id: K::Id) -> Option<V>
        decreases 16 - self.depth(x), 1int,
    {
        if !self.is_arr(x) || self.depth(x) > 15 || !(0 <= self.slot_for(x, id) < self.slots(
            x,
        ).len()) {
            None
        } else {
            self.follow(self.resolve(x, self.slots(x)[self.slot_for(x, id)]), self.depth(x), id)
        }
    }

    /// How a descent for `id` that found `t` at depth `d` ends.
    pub open spec fn follow(&self, t: Target<K::Id, V>, d: int, id: K::Id) -> Option<V>
        decreases 16 - d, 0int,
    {
        match t {
            Target::Miss => None,
            Target::Leaf(k, v) => if k == id {
                Some(v)
            } else {
                None
            },
            Target::Down(y) => if self.depth(y) == d + 1 && d < 15 {
                self.lookup_from(y, id)
            } else {
                None
            },
        }
    }

    /// A change of one slot that leaves what a descent for `id` finds behind
    /// that slot as it was leaves every descent for `id` as it was.
    pub proof fn lemma_sim(s1: &Self, s2: &Self, a0: usize, i0: int, id: K::Id, x: usize)
        requires
            s1.typed(),
            s1.kept(s2),
            s1.slots_same_but(s2, a0, i0),
            s1.depth(x) > s1.depth(a0) || (s1.is_arr(a0) && 0 <= i0 < s1.slots(a0).len()
                && s1.slot_for(a0, id) == i0 ==> s2.follow(
                s2.resolve(a0, s2.slots(a0)[i0]),
                s1.depth(a0),
                id,
            ) == s1.follow(s1.resolve(a0, s1.slots(a0)[i0]), s1.depth(a0), id)),
            s1.is_arr(x),
        ensures
            s2.lookup_from(x, id) == s1.lookup_from(x, id),
        decreases 16 - s1.depth(x),
    {
        assert(s1.nodes()[x as int].kept_as(s2.nodes()[x as int]));
        assert(s2.is_arr(x));
        assert(s2.depth(x) == s1.depth(x));
        assert(s2.slots(x).len() == s1.slots(x).len());
        let i = s1.slot_for(x, id);
        if s1.depth(x) <= 15 && 0 <= i < s1.slots(x).len() {
            if x == a0 && i == i0 {
            } else {
                let c = s1.slots(x)[i];
                assert(s2.slots(x)[i] == c);
                assert(s1.node_typed(x));
                assert(s1.slot_typed(c));
                if c != NULL {
                    assert(s1.nodes()[c as int].kept_as(s2.nodes()[c as int]));
                    assert(s1.node_typed(c));
                    let y = match s1.nodes()[c as int] {
                        Node::ANode(_) => c,
                        Node::FNode { frozen } => frozen,
                        Node::ENode { narrow, .. } => narrow,
                        _ => NULL,
                    };
                    if y != NULL {
                        assert(s1.is_arr(y));
                        assert(s1.nodes()[y as int].kept_as(s2.nodes()[y as int]));
                        assert(s2.down(x, y) == s1.down(x, y));
                    }
                    assert(s2.resolve(x, c) == s1.resolve(x, c));
                }
                let t = s1.resolve(x, c);
                assert(s2.resolve(x, c) == t);
                assert(s1.lookup_from(x, id) == s1.follow(t, s1.depth(x), id));
                assert(s2.lookup_from(x, id) == s2.follow(t, s1.depth(x), id));
                match t {
                    Target::Down(y) => {
                        assert(s1.is_arr(y));
                        assert(s1.nodes()[y as int].kept_as(s2.nodes()[y as int]));
                        if s1.depth(y) == s1.depth(x) + 1 && s1.depth(x) < 15 {
                            Self::lemma_sim(s1, s2, a0, i0, id, y);
                        }
                    },
                    _ => {},
                }
            }
        }
    }

    /// A change of no slot leaves every descent as it was.
    pub proof fn lemma_sim_all(s1: &Self, s2: &Self)
        requires
            s1.typed(),
            s1.kept(s2),
            forall|a: usize, i: int|
                s1.is_arr(a) && 0 <= i < s1.slots(a).len() ==> #[trigger] s2.slots(a)[i]
                    == s1.slots(a)[i],
        ensures
            forall|x: usize, id: K::Id|
                s1.is_arr(x) ==> #[trigger] s2.lookup_from(x, id) == s1.lookup_from(x, id),
    {
        assert forall|x: usize, id: K::Id| s1.is_arr(x) implies #[trigger] s2.lookup_from(x, id)
            == s1.lookup_from(x, id) by {
            Self::lemma_sim(s1, s2, x, -1, id, x);
        }
    }

    /// Every descent from a node of `self` finds in `later` what it found.
    pub open spec fn same_lookups(&self, later: &Self) -> bool {
        forall|x: usize, id: K::Id|
            self.is_arr(x) ==> #[trigger] later.lookup_from(x, id) == self.lookup_from(x, id)
    }

    /// A change of one slot that leaves what a descent finds in that slot as
    /// it was leaves every descent as it was.
    pub proof fn lemma_sim_resolve(s1: &Self, s2: &Self, a0: usize, i0: int)
        requires
            s1.typed(),
            s1.kept(s2),
            s1.slots_same_but(s2, a0, i0),
            s1.is_arr(a0) && 0 <= i0 < s1.slots(a0).len() ==> s2.resolve(a0, s2.slots(a0)[i0])
                == s1.resolve(a0, s1.slots(a0)[i0]),
        ensures
            s1.same_lookups(s2),
    {
        assert forall|x: usize, id: K::Id| s1.is_arr(x) implies #[trigger] s2.lookup_from(x, id)
            == s1.lookup_from(x, id) by {
            if s1.is_arr(a0) && 0 <= i0 < s1.slots(a0).len() {
                let t = s1.resolve(a0, s1.slots(a0)[i0]);
                match t {
                    Target::Down(y) => {
                        if s1.depth(y) == s1.depth(a0) + 1 && s1.depth(a0) < 15 {
                            Self::lemma_sim(s1, s2, a0, i0, id, y);
                        }
                    },
                    _ => {},
                }
            }
            Self::lemma_sim(s1, s2, a0, i0, id, x);
        }
    }

    /// `same_lookups` carries over two steps.
    pub proof fn lemma_lookups_trans(s1: &Self, s2: &Self, s3: &Self)
        requires
            s1.kept(s2),
            s1.same_lookups(s2),
            s2.same_lookups(s3),
        ensures
            s1.same_lookups(s3),
    {
        assert forall|x: usize, id: K::Id| s1.is_arr(x) implies #[trigger] s3.lookup_from(x, id)
            == s1.lookup_from(x, id) by {
            assert(s1.nodes()[x as int].kept_as(s2.nodes()[x as int]));
            assert(s2.lookup_from(x, id) == s1.lookup_from(x, id));
        }
    }

    /// A hash that follows a path and selects the slot `i` next follows the
    /// path that goes on to slot `i`.
    pub proof fn lemma_on_path_push(h: u64, path: Seq<(bool, int)>, wide: bool, i: int)
        requires
            on_path(h, path),
            slot_index(h, 4 * (path.len() as int), step_width(wide)) == i,
        ensures
            on_path(h, path.push((wide, i))),
    {
        let longer = path.push((wide, i));
        assert forall|j: int| 0 <= j < longer.len() implies slot_index(
            h,
            4 * j,
            step_width((#[trigger] longer[j]).0),
        ) == longer[j].1 by {
            if j < path.len() {
                assert(longer[j] == path[j]);
            }
        }
    }

    /// A descent from the array node `x` finds a value for `id`.
    pub open spec fn holds(&self, x: usize, id: K::Id) -> bool {
        self.lookup_from(x, id) is Some
    }

    /// What stands in the slot of the array node `x` that the hash `h`
    /// selects.
    pub open spec fn next(&self, x: usize, h: u64) -> usize {
        self.slots(x)[slot_index(h, 4 * self.depth(x), self.slots(x).len() as int)]
    }

    /// The descent for the hash `h` from `x` passes wide array nodes down
    /// to depth `j`. Wide array nodes stay where they are while those
    /// above them do: only narrow array nodes are replaced.
    pub open spec fn run_from(&self, x: usize, h: u64, j: int) -> bool
        decreases 16 - self.depth(x),
    {
        &&& self.is_arr(x)
        &&& self.slots(x).len() == WIDE
        &&& 0 <= self.depth(x) <= 15
        &&& self.depth(x) == j || (self.depth(x) < j && self.depth(self.next(x, h)) == self.depth(x)
            + 1 && self.run_from(self.next(x, h), h, j))
    }

    /// The array node `x` is narrow and its slot for `id` holds a data node
    /// of another key: an insertion of `id` puts a wide array node in its
    /// place.
    pub open spec fn turning(&self, x: usize, id: K::Id) -> bool {
        self.is_arr(x) && self.slots(x).len() == NARROW && self.collides(x, id)
    }

    /// The descent for `id` from `x` passes wide array nodes down to depth
    /// `j`, where it meets a narrow one that an insertion of `id` replaces
    /// by a wide one.
    pub open spec fn turn_from(&self, x: usize, id: K::Id, j: int) -> bool
        decreases 16 - self.depth(x),
    {
        &&& self.is_arr(x)
        &&& 0 <= self.depth(x) <= 15
        &&& if self.depth(x) == j {
            self.turning(x, id)
        } else {
            &&& self.slots(x).len() == WIDE
            &&& self.depth(x) < j
            &&& self.depth(self.next(x, K::hash_of(id))) == self.depth(x) + 1
            &&& self.turn_from(self.next(x, K::hash_of(id)), id, j)
        }
    }

    /// Keys with the two hashes, found from `x`, part in a wide array node
    /// at depth `j`.
    pub open spec fn parts_at(&self, x: usize, h1: u64, h2: u64, j: int) -> bool {
        part_at(h1, h2, self.depth(x), j) && self.run_from(x, h1, j)
    }

    /// Keys with the two hashes, found from `x`, never meet in a narrow
    /// array node that could not tell them apart: they differ in the low
    /// bits of some group, or they part in a wide array node that the
    /// descent reaches through wide array nodes.
    pub open spec fn parts(&self, x: usize, h1: u64, h2: u64) -> bool {
        separable(h1, h2) || exists|j: int| #[trigger] self.parts_at(x, h1, h2, j)
    }

    /// After an insertion of `id0` below `x`, the key and a key with the
    /// hash `h`, found from `x`, part in the wide array node that the
    /// insertion makes at depth `j`.
    pub open spec fn room_at(&self, x: usize, id0: K::Id, h: u64, j: int) -> bool {
        part_at(h, K::hash_of(id0), self.depth(x), j) && self.turn_from(x, id0, j)
    }

    /// An insertion of `id0` below `x` makes a wide array node in which a
    /// key with the hash `h` and `id0` part.
    pub open spec fn makes_room(&self, x: usize, id0: K::Id, h: u64) -> bool {
        exists|j: int| #[trigger] self.room_at(x, id0, h, j)
    }

    /// Any two keys found from `x` never meet in a narrow array node that
    /// could not tell their hashes apart.
    pub open spec fn apart_below(&self, x: usize) -> bool {
        forall|id1: K::Id, id2: K::Id|
            #![trigger self.lookup_from(x, id1), self.lookup_from(x, id2)]
            self.holds(x, id1) && self.holds(x, id2) && id1 != id2 ==> self.parts(
                x,
                K::hash_of(id1),
                K::hash_of(id2),
            )
    }

    /// After an insertion of `id0` below `x`, the key and any other key
    /// found from `x` never meet in a narrow array node that could not tell
    /// their hashes apart.
    pub open spec fn admits_below(&self, x: usize, id0: K::Id) -> bool {
        forall|id: K::Id| #[trigger]
            self.holds(x, id) && id != id0 ==> self.parts(x, K::hash_of(id), K::hash_of(id0))
                || self.makes_room(x, id0, K::hash_of(id))
    }

    /// The nodes below the address `w` refer to nodes below `w` only.
    pub open spec fn closed_below(&self, w: usize) -> bool {
        forall|a: usize| self.valid(a) && a < w ==> #[trigger] self.closed_at(a, w)
    }

    /// The node at `a` refers to nodes below `w` only.
    pub open spec fn closed_at(&self, a: usize, w: usize) -> bool {
        match self.nodes()[a as int] {
            Node::ANode(_) => forall|j: int|
                0 <= j < self.slots(a).len() ==> #[trigger] self.slots(a)[j] == NULL || self.slots(
                    a,
                )[j] < w,
            Node::FNode { frozen } => frozen < w,
            Node::ENode { narrow, .. } => narrow < w,
            _ => true,
        }
    }

    /// A hash that follows a path follows every path that it starts with.
    pub proof fn lemma_on_path_prefix(h: u64, p: Seq<(bool, int)>, q: Seq<(bool, int)>)
        requires
            on_path(h, q),
            p.is_prefix_of(q),
        ensures
            on_path(h, p),
    {
        assert forall|j: int| 0 <= j < p.len() implies slot_index(
            h,
            4 * j,
            step_width((#[trigger] p[j]).0),
        ) == p[j].1 by {
            assert(p[j] == q[j]);
        }
    }

    /// A hash that follows the path into slot `i` of the array node `a`
    /// follows the path to `a` and selects slot `i` there.
    pub proof fn lemma_on_child_path(&self, h: u64, a: usize, i: int)
        requires
            on_path(h, self.child_path(a, i)),
            self.slots(a).len() == NARROW || self.slots(a).len() == WIDE,
        ensures
            on_path(h, self.path(a)),
            slot_index(h, 4 * self.depth(a), self.slots(a).len() as int) == i,
    {
        let q = self.child_path(a, i);
        assert(self.path(a).is_prefix_of(q)) by {
            assert(self.path(a) =~= q.subrange(0, self.path(a).len() as int));
        }
        Self::lemma_on_path_prefix(h, self.path(a), q);
        assert(q[self.depth(a)] == (self.slots(a).len() == WIDE, i));
    }

    /// A key that meets a data node of the hash `ho` in its slot of the
    /// wide array node `cur` parts from it, if at all, by the low bits of
    /// some group.
    pub proof fn lemma_met_in_wide(&self, cur: usize, id0: K::Id, ho: u64)
        requires
            self.is_arr(cur),
            self.slots(cur).len() == WIDE,
            slot_index(ho, 4 * self.depth(cur), WIDE as int) == self.slot_for(cur, id0),
            !self.is_arr(self.slots(cur)[self.slot_for(cur, id0)]),
            self.parts(cur, ho, K::hash_of(id0)) || self.makes_room(cur, id0, ho),
        ensures
            separable(ho, K::hash_of(id0)),
    {
        let h0 = K::hash_of(id0);
        let d = self.depth(cur);
        if !separable(ho, h0) {
            if self.parts(cur, ho, h0) {
                let j = choose|j: int| #[trigger] self.parts_at(cur, ho, h0, j);
                assert(!groups_differ(ho, h0, d));
                assert(self.next(cur, ho) == self.slots(cur)[self.slot_for(cur, id0)]);
                assert(!self.run_from(self.next(cur, ho), ho, j));
                assert(false);
            } else {
                let j = choose|j: int| #[trigger] self.room_at(cur, id0, ho, j);
                assert(!groups_differ(ho, h0, d));
                assert(self.next(cur, h0) == self.slots(cur)[self.slot_for(cur, id0)]);
                assert(!self.turn_from(self.next(cur, h0), id0, j));
                assert(false);
            }
        }
    }

    /// The descents for two hashes that select the same slots of wide array
    /// nodes down to depth `j` pass the same array nodes down to there.
    pub proof fn lemma_run_agree(&self, x: usize, h1: u64, h2: u64, j: int)
        requires
            forall|i: int| self.depth(x) <= i < j ==> !#[trigger] groups_differ(h1, h2, i),
        ensures
            self.run_from(x, h1, j) == self.run_from(x, h2, j),
        decreases 16 - self.depth(x),
    {
        if self.is_arr(x) && self.slots(x).len() == WIDE && 0 <= self.depth(x) <= 15 && self.depth(x)
            < j {
            assert(!groups_differ(h1, h2, self.depth(x)));
            assert(self.next(x, h1) == self.next(x, h2));
            if self.depth(self.next(x, h1)) == self.depth(x) + 1 {
                self.lemma_run_agree(self.next(x, h1), h1, h2, j);
            }
        }
    }

    /// Hashes that follow one path are told apart, if at all, below it.
    pub proof fn lemma_separable_below(h1: u64, h2: u64, path: Seq<(bool, int)>)
        requires
            on_path(h1, path),
            on_path(h2, path),
            separable(h1, h2),
        ensures
            separable_from(h1, h2, path.len() as int),
    {
        let j = choose|j: int| 0 <= j < 16 && #[trigger] low_bits_differ(h1, h2, j);
        if j < path.len() {
            let wide = path[j].0;
            let s: u64 = (4 * j) as u64;
            let a: u64 = h1 >> s;
            let b: u64 = h2 >> s;
            assert(slot_index(h1, 4 * j, step_width(wide)) == slot_index(
                h2,
                4 * j,
                step_width(wide),
            ));
            assert((a & 15) == (b & 15) ==> (a & 3) == (b & 3)) by (bit_vector);
            assert(false);
        }
    }

    /// Hashes that can be told apart can be told apart either way round.
    pub proof fn lemma_separable_sym(h1: u64, h2: u64)
        requires
            separable(h1, h2),
        ensures
            separable(h2, h1),
    {
        let j = choose|j: int| 0 <= j < 16 && #[trigger] low_bits_differ(h1, h2, j);
        assert(low_bits_differ(h2, h1, j));
    }

    /// The slot that a hash selects in a narrow array node is the slot it
    /// selects in an array node of `width` slots, reduced to four.
    pub proof fn lemma_low_of_slot(h: u64, lev: int, width: int)
        requires
            width == NARROW || width == WIDE,
            0 <= lev < 64,
        ensures
            slot_index(h, lev, NARROW as int) == slot_index(h, lev, width) % 4,
            0 <= slot_index(h, lev, width) < width,
    {
        let x: u64 = h >> (lev as u64);
        assert((x & 15) % 4 == (x & 3) && (x & 3) % 4 == (x & 3) && (x & 15) < 16 && (x & 3) < 4)
            by (bit_vector);
    }
}

} // verus!
