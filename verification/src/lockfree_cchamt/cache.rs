//! The cache: levels of node addresses by hash prefix, with their miss
//! counters, and the histogram by which a new level is chosen.
use crate::lockfree_cchamt::{makeanode, NULL};
use vstd::prelude::*;

verus! {

/// One level of the cache: a table of node addresses by hash prefix.
pub struct CacheLevel {
    pub parent: usize,
    pub level: u8,
    pub nodes: Vec<usize>,
    pub misses: Vec<u32>,
}

/// The levels of the cache; `head` is the newest, or `NULL`.
pub struct Cache {
    pub levels: Vec<CacheLevel>,
    pub head: usize,
}

impl CacheLevel {
    /// The level has a slot for each hash prefix of its length, and a miss
    /// counter.
    pub open spec fn wf(&self) -> bool {
        &&& self.level < 64
        &&& self.nodes@.len() == vstd::arithmetic::power2::pow2(self.level as nat)
        &&& self.misses@.len() > 0
    }
}

impl Cache {
    /// The levels form a chain from `head`: each names an older one as its
    /// parent, or none.
    pub open spec fn wf(&self) -> bool {
        &&& self.head == NULL || self.head < self.levels@.len()
        &&& forall|i: int|
            0 <= i < self.levels@.len() ==> (#[trigger] self.levels@[i]).wf() && (
            self.levels@[i].parent == NULL || self.levels@[i].parent < i)
    }

    /// A cache without levels.
    pub fn new() -> (c: Self)
        ensures
            c.wf(),
            c.head == NULL,
            c.levels@.len() == 0,
    {
        Cache { levels: Vec::new(), head: NULL }
    }
}

/// Number of misses after which a counter is reset and the cache is
/// adjusted.
pub const MAX_MISSES: u32 = 2048;

/// Number of miss counters of a cache level.
pub const MISS_COUNTERS: usize = 2;

/// Lowest level at which a first cache level is made.
pub const FIRST_CACHE_LEVEL: u8 = 12;

/// Whether a cache level for the trie level `level` has a number of slots
/// that an address can count.
pub open spec fn level_fits(level: int) -> bool {
    0 <= level && vstd::arithmetic::power2::pow2(level as nat) <= usize::MAX
}

/// Tells whether a cache level can be made for the trie level `level`.
pub fn level_is_fit(level: usize) -> (r: bool)
    ensures
        r == level_fits(level as int),
        r ==> level < 64,
{
    proof {
        vstd::arithmetic::power2::lemma2_to64();
        if level < usize::BITS {
            vstd::bits::lemma_usize_pow2_no_overflow(level as nat);
        } else {
            if usize::BITS < level {
                vstd::arithmetic::power2::lemma_pow2_strictly_increases(usize::BITS as nat, level as nat);
            }
        }
    }
    level < usize::BITS as usize
}

/// Number of depths of the trie, and of entries of a histogram of them.
pub const DEPTHS: usize = 16;

/// The slot of a cache level for the trie level `level` that `hash`
/// selects.
pub open spec fn cache_slot(level: u8, hash: u64) -> int {
    (hash as int) % (vstd::arithmetic::power2::pow2(level as nat) as int)
}

/// The index of the first of the largest among the first `n` entries of
/// `hist`.
pub open spec fn first_max(hist: Seq<u32>, n: int) -> int
    decreases n,
{
    if n <= 0 {
        0
    } else {
        let best = first_max(hist, n - 1);
        if hist[n - 1] > hist[best] {
            n - 1
        } else {
            best
        }
    }
}

/// The trie level for which a histogram asks a cache level, given that the
/// newest cache level is one for the trie level `prev`: four times the depth
/// that holds most, if that depth holds more than one and a half times what
/// the depth of `prev` holds.
pub open spec fn wanted_level(hist: Seq<u32>, prev: u8) -> Option<int> {
    let best = first_max(hist, hist.len() as int);
    if 2 * hist[best] > 3 * hist_at(hist, prev as int / 4) {
        Some(4 * best)
    } else {
        None
    }
}

impl CacheLevel {
    /// A level for `level` under `parent` in which nothing is written or
    /// counted.
    pub open spec fn is_new(&self, level: u8, parent: usize) -> bool {
        &&& self.wf()
        &&& self.level == level
        &&& self.parent == parent
        &&& self.misses@ == Seq::new(MISS_COUNTERS as nat, |i: int| 0u32)
        &&& self.nodes@ == Seq::new(self.nodes@.len(), |i: int| NULL)
    }

    /// `later` is this level with `nv` written into slot `pos`.
    pub open spec fn with_node(&self, later: &Self, pos: int, nv: usize) -> bool {
        &&& later.level == self.level
        &&& later.parent == self.parent
        &&& later.misses@ == self.misses@
        &&& later.nodes@ == self.nodes@.update(pos, nv)
    }

    /// `later` is this level with the miss counter `id` at `count`.
    pub open spec fn with_count(&self, later: &Self, id: int, count: u32) -> bool {
        &&& later.level == self.level
        &&& later.parent == self.parent
        &&& later.nodes@ == self.nodes@
        &&& later.misses@ == self.misses@.update(id, count)
    }

    /// The place of the older level among the levels of the cache, if this
    /// level has an older one.
    pub fn parent(&self) -> (r: Option<usize>)
        ensures
            r == if self.parent == NULL {
                None
            } else {
                Some(self.parent)
            },
    {
        if self.parent == NULL {
            None
        } else {
            Some(self.parent)
        }
    }

    /// A cache level for the trie level `level`, with empty slots, with
    /// `counters` miss counters at zero, and with the older level `parent`.
    pub fn new(level: u8, counters: usize, parent: usize) -> (c: Self)
        requires
            level_fits(level as int),
            counters > 0,
        ensures
            c.wf(),
            c.level == level,
            c.parent == parent,
            c.misses@ == Seq::new(counters as nat, |i: int| 0u32),
            c.nodes@ == Seq::new(c.nodes@.len(), |i: int| NULL),
    {
        proof {
            vstd::arithmetic::power2::lemma2_to64();
            if level >= 64 {
                if level > 64 {
                    vstd::arithmetic::power2::lemma_pow2_strictly_increases(64, level as nat);
                }
            }
        }
        let len: usize = crate::cchamt::power_of_two(level as usize);
        let nodes = makeanode(len);
        let mut misses: Vec<u32> = Vec::with_capacity(counters);
        let mut i: usize = 0;
        while i < counters
            invariant
                i <= counters,
                misses@.len() == i,
                forall|j: int| 0 <= j < i ==> misses@[j] == 0,
            decreases counters - i,
        {
            misses.push(0);
            i += 1;
        }
        proof {
            assert(misses@ =~= Seq::new(counters as nat, |i: int| 0u32));
            assert(nodes@ =~= Seq::new(nodes@.len(), |i: int| NULL));
        }
        CacheLevel { parent, level, nodes, misses }
    }
}

impl Cache {
    /// `later` is this cache with one level changed into `level`.
    pub open spec fn with_level(&self, later: &Self, at: int) -> bool {
        &&& later.head == self.head
        &&& later.levels@.len() == self.levels@.len()
        &&& forall|i: int|
            0 <= i < self.levels@.len() && i != at ==> #[trigger] later.levels@[i] == self.levels@[i]
    }

    /// `later` is this cache with a level added as its newest.
    pub open spec fn with_head(&self, later: &Self) -> bool {
        &&& later.head == self.levels@.len()
        &&& later.levels@.len() == self.levels@.len() + 1
        &&& forall|i: int|
            0 <= i < self.levels@.len() ==> #[trigger] later.levels@[i] == self.levels@[i]
    }

    /// `later` is this cache after a node `nv` of the trie level `lev`
    /// with the hash `hash` was offered to the level `cache`: that level
    /// takes it if it is a level for `lev`; without a level, a first one is
    /// made for a `lev` from `FIRST_CACHE_LEVEL` on, and takes it.
    pub open spec fn inhabited(&self, later: &Self, cache: usize, nv: usize, hash: u64, lev: u8) -> bool {
        if cache != NULL {
            if self.levels@[cache as int].level == lev {
                self.with_level(later, cache as int) && self.levels@[cache as int].with_node(
                    &later.levels@[cache as int],
                    cache_slot(lev, hash),
                    nv,
                )
            } else {
                later == self
            }
        } else if FIRST_CACHE_LEVEL <= lev && level_fits(lev as int) && self.head == NULL {
            let made = later.levels@[self.levels@.len() as int];
            &&& self.with_head(later)
            &&& made.level == lev
            &&& made.parent == NULL
            &&& made.misses@ == Seq::new(MISS_COUNTERS as nat, |i: int| 0u32)
            &&& made.nodes@ == Seq::new(made.nodes@.len(), |i: int| NULL).update(
                cache_slot(lev, hash),
                nv,
            )
        } else {
            later == self
        }
    }

    /// `later` is this cache after a cache level was asked for the trie
    /// level `level`: one is made, as the newest, unless its slots would be
    /// more than an address can count.
    pub open spec fn adjusted(&self, later: &Self, level: Option<int>) -> bool {
        if level is Some && level_fits(level->Some_0) {
            self.with_head(later) && later.levels@[self.levels@.len() as int].is_new(
                level->Some_0 as u8,
                self.head,
            )
        } else {
            later == self
        }
    }
}

/// A count that stops at the largest number it can hold.
pub open spec fn capped(n: int) -> u32 {
    if n >= u32::MAX {
        u32::MAX
    } else if n < 0 {
        0
    } else {
        n as u32
    }
}

/// Entry `i` of a histogram, zero where the histogram ends before `i`.
pub open spec fn hist_at(hist: Seq<u32>, i: int) -> int {
    if 0 <= i < hist.len() {
        hist[i] as int
    } else {
        0
    }
}

} // verus!
