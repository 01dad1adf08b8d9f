//! The table itself: a fixed-length backing array of optional slots, each
//! holding a key, a value, and a tombstone flag. Keys are placed by linear
//! probing from their home slot `hash_of(key) % capacity`; deletion leaves a
//! tombstone so probe chains through the slot stay intact; growth doubles the
//! capacity and rehashes every live entry.

use crate::hashing::{calculate_hash, hash_of};
use vstd::prelude::*;

verus! {

/// Capacity of a freshly constructed table.
pub const INITIAL_CAPACITY: usize = 64;

/// One occupied slot: a key, its value, and the tombstone flag. A slot whose
/// flag is set keeps its place in probe chains but no longer binds its key.
pub(crate) struct Entry<V> {
    pub(crate) key: u64,
    pub(crate) value: V,
    pub(crate) is_deleted: bool,
}

/// An open-addressing hash table from `u64` keys to `V` values.
pub struct OAHashMap<V> {
    pub(crate) buffer: Vec<Option<Entry<V>>>,
}

// ---------------------------------------------------------------------------
// The slot-level spec vocabulary.
// ---------------------------------------------------------------------------

/// Does slot `i` hold an entry at all (live or tombstoned)?
pub(crate) open spec fn occ_at<V>(s: Seq<Option<Entry<V>>>, i: int) -> bool {
    s[i] is Some
}

/// Does slot `i` hold a live (non-tombstoned) entry?
pub(crate) open spec fn live_at<V>(s: Seq<Option<Entry<V>>>, i: int) -> bool {
    s[i] matches Some(e) && !e.is_deleted
}

/// The key stored in slot `i` (meaningful only when the slot is occupied).
pub(crate) open spec fn key_at<V>(s: Seq<Option<Entry<V>>>, i: int) -> u64 {
    match s[i] {
        Some(e) => e.key,
        None => 0,
    }
}

/// The value stored in slot `i` (meaningful only when the slot is occupied).
pub(crate) open spec fn val_at<V>(s: Seq<Option<Entry<V>>>, i: int) -> V {
    match s[i] {
        Some(e) => e.value,
        None => arbitrary(),
    }
}

// ---------------------------------------------------------------------------
// Probe geometry: walking from a home slot with wraparound.
// ---------------------------------------------------------------------------

/// Wraps an index in `[0, 2*cap)` back into `[0, cap)`.
pub(crate) open spec fn wrap_idx(cap: int, i: int) -> int {
    if i < cap {
        i
    } else {
        i - cap
    }
}

/// The slot visited on probe step `t` when probing starts at `start`.
pub(crate) open spec fn probe_at(cap: int, start: int, t: int) -> int {
    wrap_idx(cap, start + t)
}

/// How many probe steps lead from `start` to slot `i`.
pub(crate) open spec fn probe_dist(cap: int, start: int, i: int) -> int {
    if i >= start {
        i - start
    } else {
        i + cap - start
    }
}

/// The home slot of a key in a table of the given capacity.
pub(crate) open spec fn home(cap: int, key: u64) -> int {
    hash_of(key) as int % cap
}

// ---------------------------------------------------------------------------
// The table invariant.
// ---------------------------------------------------------------------------

/// Is `n` a power of two?
pub open spec fn is_pow2(n: int) -> bool
    decreases n,
{
    if n <= 0 {
        false
    } else if n == 1 {
        true
    } else {
        n % 2 == 0 && is_pow2(n / 2)
    }
}

/// The capacity starts at 64 and doubles, saturating at `usize::MAX`.
pub(crate) open spec fn cap_wf(cap: int) -> bool {
    &&& INITIAL_CAPACITY <= cap <= usize::MAX
    &&& (is_pow2(cap) || cap == usize::MAX)
}

/// No two occupied slots (live or tombstoned) hold the same key.
pub(crate) open spec fn keys_unique<V>(s: Seq<Option<Entry<V>>>) -> bool {
    forall|i: int, j: int|
        0 <= i < s.len() && 0 <= j < s.len() && i != j && occ_at(s, i) && occ_at(s, j)
            ==> #[trigger] key_at(s, i) != #[trigger] key_at(s, j)
}

/// Every slot on the probe path from the home slot of the key in slot `i`
/// up to (but not including) `i` is occupied, so probing from the home slot
/// reaches `i` without passing an empty slot first.
pub(crate) open spec fn slot_reachable<V>(s: Seq<Option<Entry<V>>>, i: int) -> bool {
    let cap = s.len() as int;
    let start = home(cap, key_at(s, i));
    forall|t: int|
        0 <= t < probe_dist(cap, start, i) ==> #[trigger] occ_at(s, probe_at(cap, start, t))
}

/// Every occupied slot is reachable by linear probing from its key's home.
pub(crate) open spec fn probing_ok<V>(s: Seq<Option<Entry<V>>>) -> bool {
    forall|i: int| 0 <= i < s.len() && #[trigger] occ_at(s, i) ==> slot_reachable(s, i)
}

// ---------------------------------------------------------------------------
// Counting live entries, over an index range.
// ---------------------------------------------------------------------------

/// How many slots in `[lo, hi)` hold live entries.
pub(crate) open spec fn num_live_range<V>(s: Seq<Option<Entry<V>>>, lo: int, hi: int) -> int
    decreases hi - lo,
{
    if lo >= hi {
        0
    } else {
        (if live_at(s, lo) {
            1int
        } else {
            0int
        }) + num_live_range(s, lo + 1, hi)
    }
}

// ---------------------------------------------------------------------------
// The table's mathematical contents.
// ---------------------------------------------------------------------------

/// Does some slot in `[lo, len)` hold a live entry with this key?
pub(crate) open spec fn has_live_key_from<V>(s: Seq<Option<Entry<V>>>, lo: int, key: u64) -> bool {
    exists|i: int| lo <= i < s.len() && #[trigger] live_at(s, i) && key_at(s, i) == key
}

/// The slot in `[lo, len)` holding a live entry with this key (meaningful
/// only when one exists; unique under `keys_unique`).
pub(crate) open spec fn live_index_of<V>(s: Seq<Option<Entry<V>>>, lo: int, key: u64) -> int {
    choose|i: int| lo <= i < s.len() && #[trigger] live_at(s, i) && key_at(s, i) == key
}

/// The map bound by the live entries in slots `[lo, len)`.
pub(crate) open spec fn view_from<V>(s: Seq<Option<Entry<V>>>, lo: int) -> Map<u64, V> {
    Map::new(
        |key: u64| has_live_key_from(s, lo, key),
        |key: u64| val_at(s, live_index_of(s, lo, key)),
    )
}

impl<V> View for OAHashMap<V> {
    type V = Map<u64, V>;

    /// A table denotes the map bound by its live entries.
    closed spec fn view(&self) -> Map<u64, V> {
        view_from(self.buffer@, 0)
    }
}

impl<V> OAHashMap<V> {
    /// The capacity: the fixed length of the backing array.
    pub closed spec fn spec_capacity(self) -> int {
        self.buffer@.len() as int
    }

    /// How many live (non-tombstoned) entries the table holds; tombstones do
    /// not count towards the load factor.
    pub closed spec fn live_count(self) -> int {
        num_live_range(self.buffer@, 0, self.buffer@.len() as int)
    }

    /// The table invariant: the capacity is a power of two (64 at least,
    /// saturating at `usize::MAX`), occupied slots hold pairwise distinct
    /// keys, and every occupied slot is reachable by linear probing from its
    /// key's home slot.
    pub closed spec fn wf(self) -> bool {
        &&& cap_wf(self.buffer@.len() as int)
        &&& keys_unique(self.buffer@)
        &&& probing_ok(self.buffer@)
    }

    /// Constructs an empty table with `INITIAL_CAPACITY` all-empty slots.
    pub fn new() -> (table: Self)
        ensures
            table.wf(),
            table@ == Map::<u64, V>::empty(),
            table.spec_capacity() == INITIAL_CAPACITY,
            table.live_count() == 0,
    {
        let mut buffer: Vec<Option<Entry<V>>> = Vec::with_capacity(INITIAL_CAPACITY);
        let mut i: usize = 0;
        while i < INITIAL_CAPACITY
            invariant
                i <= INITIAL_CAPACITY,
                buffer@.len() == i,
                forall|j: int| 0 <= j < i ==> buffer@[j] is None,
            decreases INITIAL_CAPACITY - i,
        {
            buffer.push(None);
            i += 1;
        }
        let table = Self { buffer };
        proof {
            lemma_pow2_64();
            lemma_num_live_range_none(table.buffer@, 0, table.buffer@.len() as int);
            assert(table@ =~= Map::<u64, V>::empty());
        }
        table
    }
}

impl<V> OAHashMap<V> {
    /// The home slot of a key: its hash, reduced modulo the capacity.
    fn starting_index(&self, key: &u64) -> (index: usize)
        requires
            self.buffer@.len() >= 1,
        ensures
            index < self.buffer@.len(),
            index as int == home(self.buffer@.len() as int, *key),
    {
        let digest = calculate_hash(*key);
        let cap = self.buffer.len();
        (digest % (cap as u64)) as usize
    }

    /// Probes from the key's home slot through consecutive occupied slots.
    /// Returns the slot holding the key (live or tombstoned) if there is
    /// one; returns `None` on reaching an empty slot, or after scanning the
    /// whole table, in which case no occupied slot anywhere holds the key.
    fn find_index(&self, key: &u64) -> (result: Option<usize>)
        requires
            self.wf(),
        ensures
            match result {
                Some(i) => {
                    &&& i < self.buffer@.len()
                    &&& occ_at(self.buffer@, i as int)
                    &&& key_at(self.buffer@, i as int) == *key
                },
                None => forall|j: int|
                    0 <= j < self.buffer@.len() && #[trigger] occ_at(self.buffer@, j)
                        ==> key_at(self.buffer@, j) != *key,
            },
    {
        let cap = self.buffer.len();
        let start = self.starting_index(key);
        let mut t: usize = 0;
        let mut i: usize = start;
        while t < cap
            invariant
                self.wf(),
                cap == self.buffer@.len(),
                start < cap,
                start as int == home(cap as int, *key),
                t <= cap,
                i < cap,
                i as int == probe_at(cap as int, start as int, t as int),
                forall|u: int|
                    0 <= u < t ==> #[trigger] occ_at(
                        self.buffer@,
                        probe_at(cap as int, start as int, u),
                    ) && key_at(self.buffer@, probe_at(cap as int, start as int, u)) != *key,
            decreases cap - t,
        {
            match &self.buffer[i] {
                Some(entry) => {
                    if entry.key == *key {
                        return Some(i);
                    }
                    proof {
                        assert(occ_at(self.buffer@, i as int));
                        assert(key_at(self.buffer@, i as int) == entry.key);
                        assert forall|u: int|
                            0 <= u < t + 1 implies occ_at(
                            self.buffer@,
                            probe_at(cap as int, start as int, u),
                        ) && key_at(self.buffer@, probe_at(cap as int, start as int, u))
                            != *key by {
                            if u == t {
                                assert(probe_at(cap as int, start as int, u) == i as int);
                            } else {
                                assert(occ_at(
                                    self.buffer@,
                                    probe_at(cap as int, start as int, u),
                                ));
                            }
                        }
                    }
                },
                None => {
                    proof {
                        lemma_probe_miss(self.buffer@, *key, t as int);
                    }
                    return None;
                },
            }
            t = t + 1;
            i = if i + 1 == cap {
                0
            } else {
                i + 1
            };
        }
        proof {
            lemma_probe_miss(self.buffer@, *key, cap as int);
        }
        None
    }

    /// Looks the key up: probes from its home slot; a live matching entry
    /// yields its value, while an empty slot, a tombstoned match, or a full
    /// scan without a match means the key is absent.
    pub fn search(&self, key: &u64) -> (result: Option<&V>)
        requires
            self.wf(),
        ensures
            match result {
                Some(value) => self@.contains_key(*key) && *value == self@[*key],
                None => !self@.contains_key(*key),
            },
    {
        match self.find_index(key) {
            Some(index) => match &self.buffer[index] {
                Some(entry) => {
                    if entry.is_deleted {
                        proof {
                            let s = self.buffer@;
                            assert forall|j: int|
                                0 <= j < s.len() && #[trigger] live_at(s, j) implies key_at(s, j)
                                != *key by {
                                if key_at(s, j) == *key {
                                    assert(occ_at(s, j));
                                    assert(occ_at(s, index as int));
                                    assert(key_at(s, index as int) == *key);
                                    assert(j == index as int);
                                }
                            }
                            lemma_view_absent(self.buffer@, *key);
                        }
                        None
                    } else {
                        proof {
                            lemma_view_live(self.buffer@, index as int);
                        }
                        Some(&entry.value)
                    }
                },
                None => {
                    proof {
                        assert(false);
                    }
                    None
                },
            },
            None => {
                proof {
                    let s = self.buffer@;
                    assert forall|j: int|
                        0 <= j < s.len() && #[trigger] live_at(s, j) implies key_at(s, j)
                        != *key by {
                        assert(occ_at(s, j));
                    }
                    lemma_view_absent(self.buffer@, *key);
                }
                None
            },
        }
    }

    /// Removes the key's binding if it has one, by tombstoning its slot:
    /// the slot stays occupied, so probe chains running through it are not
    /// broken, but the key no longer matches. Emptying the slot instead
    /// would strand any key inserted later in the same probe sequence, since
    /// probing stops at the first empty slot. Deleting an absent key leaves
    /// the table untouched.
    pub fn delete(&mut self, key: &u64)
        requires
            old(self).wf(),
        ensures
            final(self).wf(),
            final(self)@ == old(self)@.remove(*key),
            final(self).spec_capacity() == old(self).spec_capacity(),
            final(self).live_count() <= old(self).live_count(),
            !old(self)@.contains_key(*key) ==> *final(self) == *old(self),
    {
        match self.find_index(key) {
            Some(index) => {
                let slot_is_live = match &self.buffer[index] {
                    Some(entry) => !entry.is_deleted,
                    None => false,
                };
                if slot_is_live {
                    let ghost s = self.buffer@;
                    proof {
                        lemma_live_index_unique(s, 0, index as int);
                    }
                    match &mut self.buffer[index] {
                        Some(entry) => {
                            entry.is_deleted = true;
                        },
                        None => {},
                    }
                    proof {
                        let s2 = s.update(
                            index as int,
                            Some(
                                Entry {
                                    key: key_at(s, index as int),
                                    value: val_at(s, index as int),
                                    is_deleted: true,
                                },
                            ),
                        );
                        assert(self.buffer@ =~= s2);
                        lemma_view_update_tombstone(s, index as int);
                        lemma_wf_update_entry(
                            s,
                            index as int,
                            Entry {
                                key: key_at(s, index as int),
                                value: val_at(s, index as int),
                                is_deleted: true,
                            },
                        );
                        lemma_num_live_range_update(
                            s,
                            index as int,
                            s2[index as int],
                            0,
                            s.len() as int,
                        );
                    }
                } else {
                    // the slot holding this key is already a tombstone, so
                    // the key is absent and there is nothing to clear
                    proof {
                        let s = self.buffer@;
                        assert forall|j: int|
                            0 <= j < s.len() && #[trigger] live_at(s, j) implies key_at(s, j)
                            != *key by {
                            if key_at(s, j) == *key {
                                assert(occ_at(s, j));
                                assert(occ_at(s, index as int));
                                assert(key_at(s, index as int) == *key);
                                assert(j == index as int);
                            }
                        }
                        lemma_view_from_absent(s, 0, *key);
                        assert(old(self)@.remove(*key) =~= old(self)@);
                    }
                }
            },
            None => {
                proof {
                    let s = self.buffer@;
                    assert forall|j: int|
                        0 <= j < s.len() && #[trigger] live_at(s, j) implies key_at(s, j)
                        != *key by {
                        assert(occ_at(s, j));
                    }
                    lemma_view_from_absent(s, 0, *key);
                    assert(old(self)@.remove(*key) =~= old(self)@);
                }
            },
        }
    }
}

impl<V> Entry<V> {
    /// A fresh, live entry.
    fn new(key: u64, value: V) -> (entry: Self)
        ensures
            entry.key == key,
            entry.value == value,
            !entry.is_deleted,
    {
        Self { key, value, is_deleted: false }
    }
}

impl<V> OAHashMap<V> {
    /// Places an entry without checking the load factor. If some slot
    /// already holds the key (live or tombstoned), it is overwritten in
    /// place with a fresh live entry; otherwise probing from the key's home
    /// slot claims the first empty or tombstoned slot met. Needs a spare
    /// non-live slot so the probe is sure to find somewhere to stop.
    fn insert_unchecked(&mut self, key: u64, value: V)
        requires
            old(self).wf(),
            old(self).live_count() < old(self).spec_capacity(),
        ensures
            final(self).wf(),
            final(self)@ == old(self)@.insert(key, value),
            final(self).spec_capacity() == old(self).spec_capacity(),
            final(self).live_count() <= old(self).live_count() + 1,
    {
        if let Some(index) = self.find_index(&key) {
            let ghost s = self.buffer@;
            self.buffer[index] = Some(Entry::new(key, value));
            proof {
                let e = Entry { key, value, is_deleted: false };
                assert(self.buffer@ =~= s.update(index as int, Some(e)));
                assert forall|t: int|
                    0 <= t < probe_dist(
                        s.len() as int,
                        home(s.len() as int, e.key),
                        index as int,
                    ) implies #[trigger] occ_at(
                    s,
                    probe_at(s.len() as int, home(s.len() as int, e.key), t),
                ) by {
                    assert(occ_at(s, index as int));
                    assert(slot_reachable(s, index as int));
                }
                lemma_wf_update_entry(s, index as int, e);
                lemma_view_update_entry(s, index as int, key, value);
                lemma_num_live_range_update(s, index as int, Some(e), 0, s.len() as int);
            }
            return;
        }
        let cap = self.buffer.len();
        let start = self.starting_index(&key);
        let mut t: usize = 0;
        let mut i: usize = start;
        while t < cap
            invariant
                *self == *old(self),
                self.wf(),
                cap == self.buffer@.len(),
                start < cap,
                start as int == home(cap as int, key),
                t <= cap,
                i < cap,
                i as int == probe_at(cap as int, start as int, t as int),
                old(self).live_count() < cap,
                forall|j: int|
                    0 <= j < cap && #[trigger] occ_at(self.buffer@, j) ==> key_at(self.buffer@, j)
                        != key,
                forall|u: int|
                    0 <= u < t ==> #[trigger] live_at(
                        self.buffer@,
                        probe_at(cap as int, start as int, u),
                    ),
            decreases cap - t,
        {
            let slot_is_live = match &self.buffer[i] {
                Some(entry) => !entry.is_deleted,
                None => false,
            };
            if !slot_is_live {
                let ghost s = self.buffer@;
                self.buffer[i] = Some(Entry::new(key, value));
                proof {
                    let e = Entry { key, value, is_deleted: false };
                    assert(self.buffer@ =~= s.update(i as int, Some(e)));
                    assert(probe_dist(cap as int, start as int, i as int) == t as int);
                    assert forall|u: int|
                        0 <= u < probe_dist(cap as int, home(cap as int, e.key), i as int)
                            implies #[trigger] occ_at(
                        s,
                        probe_at(cap as int, home(cap as int, e.key), u),
                    ) by {
                        assert(live_at(s, probe_at(cap as int, start as int, u)));
                    }
                    lemma_wf_update_entry(s, i as int, e);
                    lemma_view_update_entry(s, i as int, key, value);
                    lemma_num_live_range_update(s, i as int, Some(e), 0, s.len() as int);
                }
                return;
            }
            proof {
                assert(live_at(self.buffer@, i as int));
                assert forall|u: int|
                    0 <= u < t + 1 implies #[trigger] live_at(
                    self.buffer@,
                    probe_at(cap as int, start as int, u),
                ) by {
                    if u == t {
                        assert(probe_at(cap as int, start as int, u) == i as int);
                    }
                }
            }
            t = t + 1;
            i = if i + 1 == cap {
                0
            } else {
                i + 1
            };
        }
        // unreachable: every slot live would put the live count at the full
        // capacity, against the spare-slot precondition
        proof {
            let s = self.buffer@;
            assert forall|j: int| 0 <= j < cap implies #[trigger] live_at(s, j) by {
                let d = probe_dist(cap as int, start as int, j);
                assert(probe_at(cap as int, start as int, d) == j);
                assert(live_at(s, probe_at(cap as int, start as int, d)));
            }
            lemma_num_live_range_full(s, 0, cap as int);
            assert(false);
        }
    }

    /// Does the load factor — live entries over capacity — strictly exceed
    /// the 3/5 growth threshold?
    fn needs_extending(&self) -> (result: bool)
        requires
            self.buffer@.len() >= 1,
        ensures
            result == (5 * self.live_count() > 3 * self.spec_capacity()),
    {
        let cap = self.buffer.len();
        let mut number_of_elements: usize = 0;
        let mut n: usize = 0;
        while n < cap
            invariant
                cap == self.buffer@.len(),
                n <= cap,
                number_of_elements <= n,
                number_of_elements as int == num_live_range(self.buffer@, 0, n as int),
            decreases cap - n,
        {
            let live_here = match &self.buffer[n] {
                Some(entry) => !entry.is_deleted,
                None => false,
            };
            proof {
                lemma_num_live_range_snoc(self.buffer@, 0, n as int);
            }
            if live_here {
                number_of_elements = number_of_elements + 1;
            }
            n = n + 1;
        }
        (number_of_elements as u128) * 5 > (cap as u128) * 3
    }
}

/// The capacity after one growth step: doubled, saturating at `usize::MAX`.
pub open spec fn grow_cap(cap: int) -> int {
    if 2 * cap <= usize::MAX as int {
        2 * cap
    } else {
        usize::MAX as int
    }
}

impl<V> OAHashMap<V> {
    /// Replaces the backing array with an all-empty one of twice the
    /// capacity (saturating at `usize::MAX`) and re-places every live entry
    /// by the ordinary insertion path against the new capacity; tombstones
    /// are not carried over. The table's contents are unchanged.
    fn extend(&mut self)
        requires
            old(self).wf(),
            old(self).spec_capacity() < usize::MAX,
        ensures
            final(self).wf(),
            final(self)@ == old(self)@,
            final(self).spec_capacity() == grow_cap(old(self).spec_capacity()),
            old(self).spec_capacity() < final(self).spec_capacity(),
            final(self).live_count() <= old(self).live_count(),
    {
        let current_capacity = self.buffer.len();
        let new_capacity = match current_capacity.checked_mul(2) {
            Some(doubled) => doubled,
            None => usize::MAX,
        };
        let mut new_buffer: Vec<Option<Entry<V>>> = Vec::with_capacity(new_capacity);
        let mut i: usize = 0;
        while i < new_capacity
            invariant
                i <= new_capacity,
                new_buffer@.len() == i,
                forall|j: int| 0 <= j < i ==> new_buffer@[j] is None,
            decreases new_capacity - i,
        {
            new_buffer.push(None);
            i = i + 1;
        }
        core::mem::swap(&mut self.buffer, &mut new_buffer);
        let mut old_buffer = new_buffer;
        let ghost old_s = old_buffer@;
        let ghost old_cap = old_s.len() as int;
        let ghost new_cap = self.buffer@.len() as int;
        proof {
            assert(new_cap == grow_cap(old_cap));
            assert(cap_wf(new_cap)) by {
                if 2 * old_cap <= usize::MAX as int {
                    lemma_pow2_double(old_cap);
                }
            }
            assert forall|j: int| 0 <= j < new_cap implies !occ_at(self.buffer@, j)
                && !live_at(self.buffer@, j) by {}
            lemma_num_live_range_none(self.buffer@, 0, new_cap);
            assert(self@ =~= view_from(old_s, old_cap));
            assert(old_buffer@ =~= old_s.subrange(0, old_buffer@.len() as int));
        }
        while old_buffer.len() > 0
            invariant
                self.wf(),
                self.buffer@.len() == new_cap,
                old_cap == old_s.len() as int,
                old_cap < new_cap,
                keys_unique(old_s),
                old_buffer@.len() <= old_s.len(),
                old_buffer@ == old_s.subrange(0, old_buffer@.len() as int),
                self@ =~= view_from(old_s, old_buffer@.len() as int),
                num_live_range(self.buffer@, 0, new_cap) <= num_live_range(
                    old_s,
                    old_buffer@.len() as int,
                    old_cap,
                ),
            decreases old_buffer.len(),
        {
            let ghost m = old_buffer@.len() as int;
            let slot = old_buffer.pop();
            proof {
                assert(old_buffer@ =~= old_s.subrange(0, m - 1));
                assert(slot == Some(old_s[m - 1]));
                lemma_view_from_step(old_s, m - 1);
                lemma_num_live_range_le(old_s, m, old_cap);
            }
            match slot {
                Some(Some(entry)) => {
                    if !entry.is_deleted {
                        proof {
                            assert(live_at(old_s, m - 1));
                            assert(key_at(old_s, m - 1) == entry.key);
                            assert(val_at(old_s, m - 1) == entry.value);
                        }
                        self.insert_unchecked(entry.key, entry.value);
                    } else {
                        proof {
                            assert(!live_at(old_s, m - 1));
                        }
                    }
                },
                Some(None) => {
                    proof {
                        assert(!live_at(old_s, m - 1));
                    }
                },
                None => {
                    proof {
                        assert(false);
                    }
                },
            }
        }
        proof {
            assert(old_buffer@.len() == 0);
            assert(self@ =~= view_from(old_s, 0));
            assert(old_s == old(self).buffer@);
            assert(final(self)@ == old(self)@);
        }
    }

    /// Inserts or overwrites: grows the table first if the load factor
    /// strictly exceeds 3/5, then places the pair. The contents afterwards
    /// are the old contents with this key bound to this value. Growth past
    /// `usize::MAX` slots cannot be represented, so a table already at that
    /// capacity must be below the threshold.
    pub fn insert(&mut self, key: u64, value: V)
        requires
            old(self).wf(),
            5 * old(self).live_count() > 3 * old(self).spec_capacity() ==> old(
                self,
            ).spec_capacity() < usize::MAX,
        ensures
            final(self).wf(),
            final(self)@ == old(self)@.insert(key, value),
            final(self).live_count() <= old(self).live_count() + 1,
            final(self).spec_capacity() == if 5 * old(self).live_count() > 3 * old(
                self,
            ).spec_capacity() {
                grow_cap(old(self).spec_capacity())
            } else {
                old(self).spec_capacity()
            },
    {
        proof {
            lemma_num_live_range_le(self.buffer@, 0, self.buffer@.len() as int);
        }
        if self.needs_extending() {
            self.extend();
        }
        self.insert_unchecked(key, value);
    }

    /// Capacity scaling: a well-formed table's capacity is a power of two —
    /// it starts at 64 and doubles on growth — except once growth has
    /// saturated at `usize::MAX` slots. Each doubling itself is stated by
    /// `insert`'s contract: crossing the 3/5 load threshold grows the
    /// capacity to `grow_cap` of the old one.
    pub proof fn lemma_capacity_power_of_two(self)
        requires
            self.wf(),
            self.spec_capacity() != usize::MAX,
        ensures
            is_pow2(self.spec_capacity()),
    {
    }
}

// ---------------------------------------------------------------------------
// Lemmas about probing.
// ---------------------------------------------------------------------------

/// If probing from a key's home slot has passed `t` occupied slots that all
/// hold other keys, and then hits an empty slot (or has scanned the whole
/// table), no occupied slot anywhere holds the key: any such slot would be
/// reachable, which would put it on the scanned stretch.
pub(crate) proof fn lemma_probe_miss<V>(s: Seq<Option<Entry<V>>>, key: u64, t: int)
    requires
        s.len() >= 1,
        keys_unique(s),
        probing_ok(s),
        0 <= t <= s.len(),
        forall|u: int|
            0 <= u < t ==> #[trigger] occ_at(s, probe_at(s.len() as int, home(s.len() as int, key), u))
                && key_at(s, probe_at(s.len() as int, home(s.len() as int, key), u)) != key,
        t < s.len() ==> !occ_at(s, probe_at(s.len() as int, home(s.len() as int, key), t)),
    ensures
        forall|j: int| 0 <= j < s.len() && #[trigger] occ_at(s, j) ==> key_at(s, j) != key,
{
    let cap = s.len() as int;
    let h = home(cap, key);
    assert forall|j: int| 0 <= j < cap && #[trigger] occ_at(s, j) implies key_at(s, j) != key by {
        if key_at(s, j) == key {
            let d = probe_dist(cap, h, j);
            assert(0 <= d < cap);
            assert(probe_at(cap, h, d) == j);
            assert(slot_reachable(s, j));
            if d < t {
                assert(occ_at(s, probe_at(cap, h, d)));
                assert(key_at(s, probe_at(cap, h, d)) != key);
            } else if d == t {
                assert(occ_at(s, probe_at(cap, h, d)));
            } else {
                assert(occ_at(s, probe_at(cap, h, t)));
            }
        }
    }
}

// ---------------------------------------------------------------------------
// Lemmas connecting slots to the table's map.
// ---------------------------------------------------------------------------

/// A live slot's pair is bound in the map.
pub(crate) proof fn lemma_view_live<V>(s: Seq<Option<Entry<V>>>, i: int)
    requires
        keys_unique(s),
        0 <= i < s.len(),
        live_at(s, i),
    ensures
        view_from(s, 0).contains_key(key_at(s, i)),
        view_from(s, 0)[key_at(s, i)] == val_at(s, i),
{
    let key = key_at(s, i);
    assert(has_live_key_from(s, 0, key));
    let j = live_index_of(s, 0, key);
    assert(live_at(s, j) && key_at(s, j) == key);
    assert(j == i);
}

/// A key no live slot holds is absent from the map.
pub(crate) proof fn lemma_view_absent<V>(s: Seq<Option<Entry<V>>>, key: u64)
    requires
        forall|j: int|
            0 <= j < s.len() && #[trigger] live_at(s, j) ==> key_at(s, j) != key,
    ensures
        !view_from(s, 0).contains_key(key),
{
}

// ---------------------------------------------------------------------------
// Basic lemmas about the spec vocabulary.
// ---------------------------------------------------------------------------

/// 64 is a power of two.
pub(crate) proof fn lemma_pow2_64()
    ensures
        is_pow2(64),
{
    assert(is_pow2(1));
    assert(is_pow2(2));
    assert(is_pow2(4));
    assert(is_pow2(8));
    assert(is_pow2(16));
    assert(is_pow2(32));
    assert(is_pow2(64));
}

/// Doubling a power of two yields a power of two.
pub(crate) proof fn lemma_pow2_double(n: int)
    requires
        is_pow2(n),
    ensures
        is_pow2(2 * n),
{
    assert(n >= 1);
    assert(2 * n / 2 == n);
    assert(2 * n % 2 == 0);
}

/// Widening the range `[lo + 1, len)` to `[lo, len)` adds slot
/// `lo`'s binding, if it is live, and nothing else.
pub(crate) proof fn lemma_view_from_step<V>(s: Seq<Option<Entry<V>>>, lo: int)
    requires
        keys_unique(s),
        0 <= lo < s.len(),
    ensures
        live_at(s, lo) ==> view_from(s, lo) == view_from(s, lo + 1).insert(
            key_at(s, lo),
            val_at(s, lo),
        ),
        !live_at(s, lo) ==> view_from(s, lo) == view_from(s, lo + 1),
{
    let m1 = view_from(s, lo);
    let m2 = view_from(s, lo + 1);
    if live_at(s, lo) {
        let key = key_at(s, lo);
        let m3 = m2.insert(key, val_at(s, lo));
        assert forall|q: u64| #[trigger] m1.contains_key(q) implies m3.contains_key(q) && m1[q]
            == m3[q] by {
            let j = live_index_of(s, lo, q);
            assert(live_at(s, j) && key_at(s, j) == q && lo <= j < s.len());
            if q == key {
                lemma_live_index_unique(s, lo, lo);
            } else {
                assert(j != lo);
                lemma_live_index_unique(s, lo, j);
                lemma_live_index_unique(s, lo + 1, j);
            }
        }
        assert forall|q: u64| #[trigger] m3.contains_key(q) implies m1.contains_key(q) by {
            if q == key {
                lemma_live_index_unique(s, lo, lo);
            } else {
                let j = live_index_of(s, lo + 1, q);
                assert(live_at(s, j) && key_at(s, j) == q && lo + 1 <= j < s.len());
                lemma_live_index_unique(s, lo, j);
            }
        }
        assert(m1 =~= m3);
    } else {
        assert forall|q: u64| #[trigger] m1.contains_key(q) implies m2.contains_key(q) && m1[q]
            == m2[q] by {
            let j = live_index_of(s, lo, q);
            assert(live_at(s, j) && key_at(s, j) == q && lo <= j < s.len());
            assert(j != lo);
            lemma_live_index_unique(s, lo, j);
            lemma_live_index_unique(s, lo + 1, j);
        }
        assert forall|q: u64| #[trigger] m2.contains_key(q) implies m1.contains_key(q) by {
            let j = live_index_of(s, lo + 1, q);
            assert(live_at(s, j) && key_at(s, j) == q && lo + 1 <= j < s.len());
            lemma_live_index_unique(s, lo, j);
        }
        assert(m1 =~= m2);
    }
}

/// Whether an entry, if any, is bound in slot `j` of `[lo, len)` is pinned
/// by key uniqueness: a live slot with the key settles membership, the
/// chosen index, and the value.
pub(crate) proof fn lemma_live_index_unique<V>(s: Seq<Option<Entry<V>>>, lo: int, j: int)
    requires
        keys_unique(s),
        0 <= lo <= j < s.len(),
        live_at(s, j),
    ensures
        has_live_key_from(s, lo, key_at(s, j)),
        live_index_of(s, lo, key_at(s, j)) == j,
        view_from(s, lo).contains_key(key_at(s, j)),
        view_from(s, lo)[key_at(s, j)] == val_at(s, j),
{
    let key = key_at(s, j);
    assert(has_live_key_from(s, lo, key));
    let i = live_index_of(s, lo, key);
    assert(live_at(s, i) && key_at(s, i) == key);
    assert(occ_at(s, i) && occ_at(s, j));
    assert(i == j);
}

/// A key no live slot in `[lo, len)` holds is absent from that range's map.
pub(crate) proof fn lemma_view_from_absent<V>(s: Seq<Option<Entry<V>>>, lo: int, key: u64)
    requires
        forall|j: int| lo <= j < s.len() && #[trigger] live_at(s, j) ==> key_at(s, j) != key,
    ensures
        !view_from(s, lo).contains_key(key),
{
}

/// Writing a live entry into a slot that either already held the key or held
/// no live entry, while no other occupied slot holds the key, binds the key
/// to the new value and leaves every other binding alone.
pub(crate) proof fn lemma_view_update_entry<V>(s: Seq<Option<Entry<V>>>, i: int, key: u64, value: V)
    requires
        keys_unique(s),
        0 <= i < s.len(),
        live_at(s, i) ==> key_at(s, i) == key,
        forall|j: int|
            0 <= j < s.len() && j != i && #[trigger] occ_at(s, j) ==> key_at(s, j) != key,
    ensures
        view_from(s.update(i, Some(Entry { key, value, is_deleted: false })), 0) == view_from(
            s,
            0,
        ).insert(key, value),
{
    let s2 = s.update(i, Some(Entry { key, value, is_deleted: false }));
    assert(keys_unique(s2)) by {
        assert forall|a: int, b: int|
            0 <= a < s2.len() && 0 <= b < s2.len() && a != b && occ_at(s2, a) && occ_at(s2, b)
                implies #[trigger] key_at(s2, a) != #[trigger] key_at(s2, b) by {
            if a != i && b != i {
                assert(key_at(s2, a) == key_at(s, a) && key_at(s2, b) == key_at(s, b));
                assert(occ_at(s, a) && occ_at(s, b));
            } else if a == i {
                assert(occ_at(s, b) && key_at(s2, b) == key_at(s, b));
            } else {
                assert(occ_at(s, a) && key_at(s2, a) == key_at(s, a));
            }
        }
    }
    let m1 = view_from(s2, 0);
    let m2 = view_from(s, 0).insert(key, value);
    assert forall|q: u64| #[trigger] m1.contains_key(q) implies m2.contains_key(q) && m1[q]
        == m2[q] by {
        if q == key {
            lemma_live_index_unique(s2, 0, i);
        } else {
            let j = live_index_of(s2, 0, q);
            assert(live_at(s2, j) && key_at(s2, j) == q);
            assert(j != i);
            assert(live_at(s, j) && key_at(s, j) == q);
            lemma_live_index_unique(s, 0, j);
            lemma_live_index_unique(s2, 0, j);
        }
    }
    assert forall|q: u64| #[trigger] m2.contains_key(q) implies m1.contains_key(q) by {
        if q == key {
            assert(live_at(s2, i) && key_at(s2, i) == key);
            lemma_live_index_unique(s2, 0, i);
        } else {
            let j = live_index_of(s, 0, q);
            assert(live_at(s, j) && key_at(s, j) == q);
            assert(j != i ==> live_at(s2, j) && key_at(s2, j) == q);
            assert(j == i ==> false);
            lemma_live_index_unique(s2, 0, j);
        }
    }
    assert(m1 =~= m2);
}

/// Tombstoning a live slot removes exactly its key's binding.
pub(crate) proof fn lemma_view_update_tombstone<V>(s: Seq<Option<Entry<V>>>, i: int)
    requires
        keys_unique(s),
        0 <= i < s.len(),
        live_at(s, i),
    ensures
        view_from(
            s.update(
                i,
                Some(Entry { key: key_at(s, i), value: val_at(s, i), is_deleted: true }),
            ),
            0,
        ) == view_from(s, 0).remove(key_at(s, i)),
{
    let key = key_at(s, i);
    let s2 = s.update(i, Some(Entry { key, value: val_at(s, i), is_deleted: true }));
    assert(keys_unique(s2)) by {
        assert forall|a: int, b: int|
            0 <= a < s2.len() && 0 <= b < s2.len() && a != b && occ_at(s2, a) && occ_at(s2, b)
                implies #[trigger] key_at(s2, a) != #[trigger] key_at(s2, b) by {
            assert(occ_at(s, a) && occ_at(s, b));
            assert(key_at(s2, a) == key_at(s, a) && key_at(s2, b) == key_at(s, b));
        }
    }
    let m1 = view_from(s2, 0);
    let m2 = view_from(s, 0).remove(key);
    assert forall|q: u64| #[trigger] m1.contains_key(q) implies m2.contains_key(q) && m1[q]
        == m2[q] by {
        let j = live_index_of(s2, 0, q);
        assert(live_at(s2, j) && key_at(s2, j) == q);
        assert(j != i);
        assert(live_at(s, j) && key_at(s, j) == q);
        assert(occ_at(s, j) && occ_at(s, i));
        assert(q != key);
        lemma_live_index_unique(s, 0, j);
        lemma_live_index_unique(s2, 0, j);
    }
    assert forall|q: u64| #[trigger] m2.contains_key(q) implies m1.contains_key(q) by {
        let j = live_index_of(s, 0, q);
        assert(live_at(s, j) && key_at(s, j) == q);
        assert(q != key);
        assert(occ_at(s, j) && occ_at(s, i));
        assert(j != i);
        assert(live_at(s2, j) && key_at(s2, j) == q);
        lemma_live_index_unique(s2, 0, j);
    }
    assert(m1 =~= m2);
}

/// Writing a live entry into slot `i` keeps the table invariant, provided no
/// other occupied slot holds the key and the probe path from the key's home
/// slot to `i` is occupied.
pub(crate) proof fn lemma_wf_update_entry<V>(s: Seq<Option<Entry<V>>>, i: int, e: Entry<V>)
    requires
        keys_unique(s),
        probing_ok(s),
        0 <= i < s.len(),
        forall|j: int|
            0 <= j < s.len() && j != i && #[trigger] occ_at(s, j) ==> key_at(s, j) != e.key,
        forall|t: int|
            0 <= t < probe_dist(s.len() as int, home(s.len() as int, e.key), i)
                ==> #[trigger] occ_at(s, probe_at(s.len() as int, home(s.len() as int, e.key), t)),
    ensures
        keys_unique(s.update(i, Some(e))),
        probing_ok(s.update(i, Some(e))),
{
    let cap = s.len() as int;
    let s2 = s.update(i, Some(e));
    assert forall|a: int, b: int|
        0 <= a < s2.len() && 0 <= b < s2.len() && a != b && occ_at(s2, a) && occ_at(s2, b)
            implies #[trigger] key_at(s2, a) != #[trigger] key_at(s2, b) by {
        if a != i && b != i {
            assert(occ_at(s, a) && occ_at(s, b));
            assert(key_at(s2, a) == key_at(s, a) && key_at(s2, b) == key_at(s, b));
        } else if a == i {
            assert(occ_at(s, b) && key_at(s2, b) == key_at(s, b));
        } else {
            assert(occ_at(s, a) && key_at(s2, a) == key_at(s, a));
        }
    }
    assert forall|j: int| 0 <= j < s2.len() && #[trigger] occ_at(s2, j) implies slot_reachable(
        s2,
        j,
    ) by {
        if j == i {
            let start = home(cap, e.key);
            assert(key_at(s2, i) == e.key);
            assert forall|t: int| 0 <= t < probe_dist(cap, start, j) implies #[trigger] occ_at(
                s2,
                probe_at(cap, start, t),
            ) by {
                assert(occ_at(s, probe_at(cap, start, t)));
            }
        } else {
            assert(occ_at(s, j));
            assert(slot_reachable(s, j));
            assert(key_at(s2, j) == key_at(s, j));
            let start = home(cap, key_at(s2, j));
            assert forall|t: int| 0 <= t < probe_dist(cap, start, j) implies #[trigger] occ_at(
                s2,
                probe_at(cap, start, t),
            ) by {
                assert(occ_at(s, probe_at(cap, start, t)));
            }
        }
    }
}

/// How an update to one slot changes the live count of a range.
pub(crate) proof fn lemma_num_live_range_update<V>(
    s: Seq<Option<Entry<V>>>,
    i: int,
    x: Option<Entry<V>>,
    lo: int,
    hi: int,
)
    requires
        0 <= lo <= hi <= s.len(),
        0 <= i < s.len(),
    ensures
        num_live_range(s.update(i, x), lo, hi) == num_live_range(s, lo, hi) + (if lo <= i < hi {
            (if x matches Some(e) && !e.is_deleted {
                1int
            } else {
                0int
            }) - (if live_at(s, i) {
                1int
            } else {
                0int
            })
        } else {
            0int
        }),
    decreases hi - lo,
{
    if lo < hi {
        lemma_num_live_range_update(s, i, x, lo + 1, hi);
    }
}

/// A range's live count never exceeds its width.
pub(crate) proof fn lemma_num_live_range_le<V>(s: Seq<Option<Entry<V>>>, lo: int, hi: int)
    requires
        0 <= lo <= hi <= s.len(),
    ensures
        0 <= num_live_range(s, lo, hi) <= hi - lo,
    decreases hi - lo,
{
    if lo < hi {
        lemma_num_live_range_le(s, lo + 1, hi);
    }
}

/// A range of all-live slots has a live count equal to its width.
pub(crate) proof fn lemma_num_live_range_full<V>(s: Seq<Option<Entry<V>>>, lo: int, hi: int)
    requires
        0 <= lo <= hi <= s.len(),
        forall|j: int| lo <= j < hi ==> #[trigger] live_at(s, j),
    ensures
        num_live_range(s, lo, hi) == hi - lo,
    decreases hi - lo,
{
    if lo < hi {
        lemma_num_live_range_full(s, lo + 1, hi);
    }
}

/// Extending a range by one slot on the right adds that slot's contribution.
pub(crate) proof fn lemma_num_live_range_snoc<V>(s: Seq<Option<Entry<V>>>, lo: int, hi: int)
    requires
        0 <= lo <= hi < s.len(),
    ensures
        num_live_range(s, lo, hi + 1) == num_live_range(s, lo, hi) + (if live_at(s, hi) {
            1int
        } else {
            0int
        }),
    decreases hi - lo,
{
    if lo < hi {
        lemma_num_live_range_snoc(s, lo + 1, hi);
    } else {
        assert(num_live_range(s, hi + 1, hi + 1) == 0);
    }
}

/// A range of empty slots holds no live entries.
pub(crate) proof fn lemma_num_live_range_none<V>(s: Seq<Option<Entry<V>>>, lo: int, hi: int)
    requires
        0 <= lo,
        hi <= s.len(),
        forall|j: int| lo <= j < hi ==> s[j] is None,
    ensures
        num_live_range(s, lo, hi) == 0,
    decreases hi - lo,
{
    if lo < hi {
        lemma_num_live_range_none(s, lo + 1, hi);
    }
}

} // verus!
