//! The transposition table: small buckets of search results keyed by Zobrist key.
use vstd::prelude::*;

use crate::board::Move;
use crate::position::Position;

verus! {

/// Number of buckets of the default table.
pub const TT_BUCKETS: usize = 16384;

/// Number of entries per bucket.
pub const TT_BUCKET_SIZE: usize = 4;

/// How a stored score bounds the true score of a position.
#[derive(Clone, Copy, Debug, PartialEq, Eq, Structural)]
pub enum Bound {
    Exact,
    Lower,
    Upper,
}

/// One stored search result.
#[derive(Clone, Copy, Debug, PartialEq, Eq, Structural)]
pub struct TableEntry {
    /// Zobrist key of the position the entry belongs to.
    pub key: u64,
    /// Remaining search depth that produced the entry.
    pub depth: u8,
    /// Stored score.
    pub score: i32,
    /// How `score` bounds the true score.
    pub bound: Bound,
    /// Best move found, if any.
    pub best_move: Option<Move>,
}

/// A table of entries grouped in buckets of `TT_BUCKET_SIZE`, indexed by key.
#[derive(Clone, Debug)]
pub struct TranspositionTable {
    pub(crate) slots: Vec<Option<TableEntry>>,
}

/// Whether slot `i` holds an entry with the given key.
pub open spec fn slot_has(v: Seq<Option<TableEntry>>, i: int, key: u64) -> bool {
    v[i] matches Some(e) && e.key == key
}

/// Whether offset `l` of the bucket at `base` holds an entry with `key`.
pub open spec fn bucket_has(v: Seq<Option<TableEntry>>, base: int, l: int, key: u64) -> bool {
    slot_has(v, base + l, key)
}

/// Whether offset `l` of the bucket at `base` is empty.
pub open spec fn bucket_empty(v: Seq<Option<TableEntry>>, base: int, l: int) -> bool {
    v[base + l] is None
}

/// Depth at offset `l` of the bucket at `base`.
pub open spec fn bucket_depth(v: Seq<Option<TableEntry>>, base: int, l: int) -> int {
    depth_at(v, base + l)
}

/// First offset `>= i` in the bucket at `base` holding an entry with `key`.
pub open spec fn find_key(v: Seq<Option<TableEntry>>, base: int, key: u64, i: int) -> Option<int>
    decreases 4 - i,
{
    if i >= 4 || i < 0 {
        None
    } else if slot_has(v, base + i, key) {
        Some(i)
    } else {
        find_key(v, base, key, i + 1)
    }
}

/// First offset `>= i` in the bucket at `base` that is empty.
pub open spec fn find_empty(v: Seq<Option<TableEntry>>, base: int, i: int) -> Option<int>
    decreases 4 - i,
{
    if i >= 4 || i < 0 {
        None
    } else if v[base + i] is None {
        Some(i)
    } else {
        find_empty(v, base, i + 1)
    }
}

/// Depth of slot `i` (zero when empty).
pub open spec fn depth_at(v: Seq<Option<TableEntry>>, i: int) -> int {
    match v[i] {
        Some(e) => e.depth as int,
        None => 0,
    }
}

/// First offset among `0..i` of the bucket at `base` with the smallest depth.
pub open spec fn shallowest(v: Seq<Option<TableEntry>>, base: int, i: int) -> int
    decreases i,
{
    if i <= 1 {
        0
    } else {
        let best = shallowest(v, base, i - 1);
        if depth_at(v, base + i - 1) < depth_at(v, base + best) {
            i - 1
        } else {
            best
        }
    }
}

/// The entry `e` stored under `key`.
pub open spec fn keyed(e: TableEntry, key: u64) -> TableEntry {
    TableEntry { key, ..e }
}

/// Slots after storing `e` under `key` in the bucket at `base`: an entry with
/// the same key is replaced, else an empty slot is filled, else the shallowest
/// entry is replaced; a deeper entry in the chosen slot is kept instead.
pub open spec fn spec_store(v: Seq<Option<TableEntry>>, base: int, key: u64, e: TableEntry) -> Seq<Option<TableEntry>> {
    let new = Some(keyed(e, key));
    match find_key(v, base, key, 0) {
        Some(i) => if depth_at(v, base + i) > e.depth {
            v
        } else {
            v.update(base + i, new)
        },
        None => match find_empty(v, base, 0) {
            Some(i) => v.update(base + i, new),
            None => {
                let i = shallowest(v, base, 4);
                if depth_at(v, base + i) > e.depth {
                    v
                } else {
                    v.update(base + i, new)
                }
            },
        },
    }
}

/// The entry found under `key` in the bucket at `base`.
pub open spec fn spec_lookup(v: Seq<Option<TableEntry>>, base: int, key: u64) -> Option<TableEntry> {
    match find_key(v, base, key, 0) {
        Some(i) => v[base + i],
        None => None,
    }
}

/// Every stored entry has depth at most `max_depth` and a score within `bound`.
pub open spec fn entries_bounded(v: Seq<Option<TableEntry>>, max_depth: int, bound: int) -> bool {
    forall|i: int|
        0 <= i < v.len() ==> (#[trigger] v[i] matches Some(e) ==> e.depth <= max_depth && -bound
            <= e.score <= bound)
}

impl TranspositionTable {
    /// The table holds whole buckets, at least one.
    pub open(crate) spec fn valid(self) -> bool {
        self.slots.len() >= 4 && self.slots.len() % 4 == 0
    }

    /// The slots of the table, bucket after bucket.
    pub open(crate) spec fn view_slots(self) -> Seq<Option<TableEntry>> {
        self.slots@
    }

    /// Number of buckets.
    pub open(crate) spec fn buckets(self) -> int {
        (self.slots@.len() / 4) as int
    }

    /// First slot of the bucket of `key`.
    pub open(crate) spec fn base_of(self, key: u64) -> int {
        4 * (((key as usize) as int) % self.buckets())
    }

    /// The entry stored for `key`, if any.
    pub open(crate) spec fn lookup(self, key: u64) -> Option<TableEntry> {
        spec_lookup(self.slots@, self.base_of(key), key)
    }

    /// Creates an empty table with `bucket_count` buckets (at least one).
    pub fn new(bucket_count: usize) -> (t: TranspositionTable)
        requires
            bucket_count <= usize::MAX / 4,
        ensures
            t.valid(),
            t.buckets() == if bucket_count < 1 { 1 } else { bucket_count as int },
            forall|i: int| 0 <= i < t.view_slots().len() ==> t.view_slots()[i] is None,
    {
        let count = if bucket_count < 1 { 1 } else { bucket_count };
        let total = count * TT_BUCKET_SIZE;
        let mut slots: Vec<Option<TableEntry>> = Vec::new();
        while slots.len() < total
            invariant
                slots.len() <= total,
                total == count * 4,
                forall|i: int| 0 <= i < slots.len() ==> slots@[i] is None,
            decreases total - slots.len(),
        {
            slots.push(None);
        }
        TranspositionTable { slots }
    }

    /// Index of the bucket for `key`.
    pub fn index_for(&self, key: u64) -> (r: usize)
        requires
            self.valid(),
        ensures
            4 * r == self.base_of(key),
            0 <= r < self.buckets(),
    {
        (key as usize) % (self.slots.len() / TT_BUCKET_SIZE)
    }

    /// Returns the entry stored for the position's key, if any.
    pub fn get(&self, position: &Position) -> (r: Option<TableEntry>)
        requires
            self.valid(),
        ensures
            r == self.lookup(position.key()),
    {
        let key = position_key(position);
        let base = self.index_for(key) * TT_BUCKET_SIZE;
        let mut i: usize = 0;
        while i < TT_BUCKET_SIZE
            invariant
                i <= 4,
                base + 4 <= self.slots.len(),
                base == self.base_of(key),
                key == position.key(),
                find_key(self.slots@, base as int, key, 0) == find_key(self.slots@, base as int, key, i as int),
            decreases 4 - i,
        {
            match self.slots[base + i] {
                Some(entry) => {
                    if entry.key == key {
                        return Some(entry);
                    }
                },
                None => {},
            }
            i += 1;
        }
        None
    }

    /// Stores an entry for the position's key (the entry's own key field is
    /// replaced by the position's key). Afterwards a read of the position
    /// gives the stored entry, unless the table kept a deeper entry instead,
    /// in which case nothing changes.
    #[verifier::loop_isolation(false)]
    pub fn insert(&mut self, position: &Position, entry: TableEntry)
        requires
            old(self).valid(),
        ensures
            final(self).valid(),
            final(self).view_slots() == spec_store(
                old(self).view_slots(),
                old(self).base_of(position.key()),
                position.key(),
                entry,
            ),
            final(self).buckets() == old(self).buckets(),
            final(self).lookup(position.key()) == Some(keyed(entry, position.key())) || final(self).view_slots()
                == old(self).view_slots(),
            (forall|l: int|
                0 <= l < 4 ==> #[trigger] bucket_depth(old(self).view_slots(), old(self).base_of(position.key()), l)
                    <= entry.depth) ==> final(self).lookup(position.key()) == Some(keyed(entry, position.key())),
    {
        proof {
            lemma_base_in_range(*self, position.key());
            lemma_store_then_lookup(self.view_slots(), self.base_of(position.key()), position.key(), entry);
        }
        let key = position_key(position);
        let base = self.index_for(key) * TT_BUCKET_SIZE;
        let new_entry = TableEntry { key, ..entry };
        let ghost v = self.slots@;
        let mut i: usize = 0;
        while i < TT_BUCKET_SIZE
            invariant
                i <= 4,
                base + 4 <= self.slots.len(),
                self.slots@ == v,
                v == old(self).view_slots(),
                old(self).valid(),
                base == old(self).base_of(key),
                key == position.key(),
                new_entry == keyed(entry, key),
                find_key(v, base as int, key, 0) == find_key(v, base as int, key, i as int),
            decreases 4 - i,
        {
            if let Some(existing) = self.slots[base + i] {
                if existing.key == key {
                    if existing.depth > new_entry.depth {
                        return;
                    }
                    self.slots.set(base + i, Some(new_entry));
                    return;
                }
            }
            i += 1;
        }
        let mut i: usize = 0;
        while i < TT_BUCKET_SIZE
            invariant
                i <= 4,
                base + 4 <= self.slots.len(),
                self.slots@ == v,
                v == old(self).view_slots(),
                old(self).valid(),
                base == old(self).base_of(key),
                key == position.key(),
                new_entry == keyed(entry, key),
                find_key(v, base as int, key, 0) is None,
                find_empty(v, base as int, 0) == find_empty(v, base as int, i as int),
            decreases 4 - i,
        {
            if self.slots[base + i].is_none() {
                self.slots.set(base + i, Some(new_entry));
                return;
            }
            i += 1;
        }
        let mut replace_index: usize = 0;
        let mut replace_depth: u8 = match self.slots[base] {
            Some(e) => e.depth,
            None => 0,
        };
        let mut i: usize = 1;
        while i < TT_BUCKET_SIZE
            invariant
                1 <= i <= 4,
                base + 4 <= self.slots.len(),
                self.slots@ == v,
                v == old(self).view_slots(),
                old(self).valid(),
                replace_index == shallowest(v, base as int, i as int),
                replace_index < 4,
                replace_depth == depth_at(v, base + replace_index),
            decreases 4 - i,
        {
            let d: u8 = match self.slots[base + i] {
                Some(e) => e.depth,
                None => 0,
            };
            if d < replace_depth {
                replace_index = i;
                replace_depth = d;
            }
            i += 1;
        }
        if replace_depth > new_entry.depth {
            return;
        }
        self.slots.set(base + replace_index, Some(new_entry));
    }
}

impl Default for TranspositionTable {
    fn default() -> (t: TranspositionTable)
        ensures
            t.valid(),
            t.buckets() == TT_BUCKETS,
            forall|i: int| 0 <= i < t.view_slots().len() ==> t.view_slots()[i] is None,
    {
        TranspositionTable::new(TT_BUCKETS)
    }
}

/// The key under which a position is stored: its Zobrist key.
pub fn position_key(position: &Position) -> (k: u64)
    ensures
        k == position.key(),
{
    position.zobrist_key()
}

} // verus!

verus! {

/// The slot found for a key holds it and no earlier slot of the bucket does.
proof fn lemma_find_key(v: Seq<Option<TableEntry>>, base: int, key: u64, i: int)
    requires
        0 <= i <= 4,
    ensures
        match find_key(v, base, key, i) {
            Some(j) => i <= j < 4 && slot_has(v, base + j, key) && forall|l: int|
                i <= l < j ==> !#[trigger] bucket_has(v, base, l, key),
            None => forall|l: int| i <= l < 4 ==> !#[trigger] bucket_has(v, base, l, key),
        },
    decreases 4 - i,
{
    if i < 4 {
        lemma_find_key(v, base, key, i + 1);
    }
}

/// The slot found empty is empty and, when none is found, no slot is.
proof fn lemma_find_empty(v: Seq<Option<TableEntry>>, base: int, i: int)
    requires
        0 <= i <= 4,
    ensures
        match find_empty(v, base, i) {
            Some(j) => i <= j < 4 && v[base + j] is None,
            None => forall|l: int| i <= l < 4 ==> !#[trigger] bucket_empty(v, base, l),
        },
    decreases 4 - i,
{
    if i < 4 {
        lemma_find_empty(v, base, i + 1);
    }
}

/// The shallowest slot is no deeper than any other slot of the bucket.
proof fn lemma_shallowest(v: Seq<Option<TableEntry>>, base: int, i: int)
    requires
        1 <= i <= 4,
    ensures
        0 <= shallowest(v, base, i) < i,
        forall|l: int| 0 <= l < i ==> depth_at(v, base + shallowest(v, base, i)) <= #[trigger] bucket_depth(v, base, l),
    decreases i,
{
    if i > 1 {
        lemma_shallowest(v, base, i - 1);
    }
}

/// Writing `new` at slot `base + j`, where no earlier slot of the bucket holds
/// `key`, makes a lookup of `key` find `new`.
proof fn lemma_lookup_after_write(v: Seq<Option<TableEntry>>, base: int, key: u64, j: int, new: TableEntry)
    requires
        0 <= base,
        base + 4 <= v.len(),
        0 <= j < 4,
        new.key == key,
        forall|l: int| 0 <= l < j ==> !#[trigger] bucket_has(v, base, l, key),
    ensures
        spec_lookup(v.update(base + j, Some(new)), base, key) == Some(new),
{
    let w = v.update(base + j, Some(new));
    lemma_find_key(w, base, key, 0);
    assert(bucket_has(w, base, j, key));
    assert forall|l: int| 0 <= l < j implies !#[trigger] bucket_has(w, base, l, key) by {
        assert(w[base + l] == v[base + l]);
        assert(!bucket_has(v, base, l, key));
    }
    match find_key(w, base, key, 0) {
        Some(jj) => {
            if jj < j {
                assert(bucket_has(w, base, jj, key));
            }
            assert(jj == j);
        },
        None => {
            assert(bucket_has(w, base, j, key));
        },
    }
}

/// Storing under a key and looking the key up again gives the stored entry
/// back, unless the bucket kept a deeper entry, in which case nothing changed.
/// When no entry of the bucket is deeper than the new one, it is always stored.
pub proof fn lemma_store_then_lookup(v: Seq<Option<TableEntry>>, base: int, key: u64, e: TableEntry)
    requires
        0 <= base,
        base + 4 <= v.len(),
    ensures
        spec_store(v, base, key, e) == v || spec_lookup(spec_store(v, base, key, e), base, key) == Some(
            keyed(e, key),
        ),
        (forall|l: int| 0 <= l < 4 ==> #[trigger] bucket_depth(v, base, l) <= e.depth) ==> spec_lookup(
            spec_store(v, base, key, e),
            base,
            key,
        ) == Some(keyed(e, key)),
        (find_key(v, base, key, 0) matches Some(i) && depth_at(v, base + i) > e.depth) ==> spec_store(
            v,
            base,
            key,
            e,
        ) == v,
{
    lemma_find_key(v, base, key, 0);
    lemma_find_empty(v, base, 0);
    lemma_shallowest(v, base, 4);
    match find_key(v, base, key, 0) {
        Some(i) => {
            assert(bucket_depth(v, base, i) == depth_at(v, base + i));
            if !(depth_at(v, base + i) > e.depth) {
                lemma_lookup_after_write(v, base, key, i, keyed(e, key));
            }
        },
        None => {
            match find_empty(v, base, 0) {
                Some(i) => {
                    lemma_lookup_after_write(v, base, key, i, keyed(e, key));
                },
                None => {
                    let i = shallowest(v, base, 4);
                    assert(bucket_depth(v, base, i) == depth_at(v, base + i));
                    if !(depth_at(v, base + i) > e.depth) {
                        lemma_lookup_after_write(v, base, key, i, keyed(e, key));
                    }
                },
            }
        },
    }
}

/// Storing an entry whose depth and score respect the bounds keeps every
/// entry of the table within them.
pub proof fn lemma_store_bounded(
    v: Seq<Option<TableEntry>>,
    base: int,
    key: u64,
    e: TableEntry,
    max_depth: int,
    bound: int,
)
    requires
        0 <= base,
        base + 4 <= v.len(),
        entries_bounded(v, max_depth, bound),
        e.depth <= max_depth,
        -bound <= e.score <= bound,
    ensures
        entries_bounded(spec_store(v, base, key, e), max_depth, bound),
        spec_store(v, base, key, e).len() == v.len(),
{
    let w = spec_store(v, base, key, e);
    lemma_find_key(v, base, key, 0);
    lemma_find_empty(v, base, 0);
    lemma_shallowest(v, base, 4);
    assert(w.len() == v.len());
    assert forall|i: int| 0 <= i < w.len() implies (#[trigger] w[i] matches Some(x) ==> x.depth <= max_depth && -bound <= x.score <= bound) by {
        if w[i] != v[i] {
            assert(w[i] == Some(keyed(e, key)));
        }
    }
}

/// The bucket of every key lies inside a valid table.
pub(crate) proof fn lemma_base_in_range(t: TranspositionTable, key: u64)
    requires
        t.valid(),
    ensures
        0 <= t.base_of(key),
        t.base_of(key) + 4 <= t.view_slots().len(),
{
    let n = t.buckets();
    let x = ((key as usize) as int) % n;
    assert(0 <= x < n);
    assert(t.view_slots().len() == 4 * n);
}

/// An entry found in a table whose entries respect bounds respects them too.
pub(crate) proof fn lemma_lookup_bounded(v: Seq<Option<TableEntry>>, base: int, key: u64, max_depth: int, bound: int)
    requires
        0 <= base,
        base + 4 <= v.len(),
        entries_bounded(v, max_depth, bound),
    ensures
        spec_lookup(v, base, key) matches Some(e) ==> e.depth <= max_depth && -bound <= e.score <= bound
            && e.key == key,
{
    lemma_find_key(v, base, key, 0);
    match find_key(v, base, key, 0) {
        Some(i) => {
            assert(v[base + i] matches Some(e) ==> e.depth <= max_depth && -bound <= e.score <= bound);
        },
        None => {},
    }
}

/// When every entry is at most as deep as `e`, storing `e` under `key` makes a
/// lookup of `key` find it.
pub(crate) proof fn lemma_store_shallow_then_lookup(
    v: Seq<Option<TableEntry>>,
    base: int,
    key: u64,
    e: TableEntry,
    bound: int,
)
    requires
        0 <= base,
        base + 4 <= v.len(),
        entries_bounded(v, e.depth as int, bound),
    ensures
        spec_lookup(spec_store(v, base, key, e), base, key) == Some(keyed(e, key)),
{
    assert forall|l: int| 0 <= l < 4 implies #[trigger] bucket_depth(v, base, l) <= e.depth by {
        assert(v[base + l] matches Some(x) ==> x.depth <= e.depth);
    }
    lemma_store_then_lookup(v, base, key, e);
}

/// Bounds on depth hold for every larger depth too.
pub(crate) proof fn lemma_bounded_weaken(v: Seq<Option<TableEntry>>, d1: int, d2: int, bound: int)
    requires
        entries_bounded(v, d1, bound),
        d1 <= d2,
    ensures
        entries_bounded(v, d2, bound),
{
    assert forall|i: int| 0 <= i < v.len() implies (#[trigger] v[i] matches Some(e) ==> e.depth <= d2 && -bound
        <= e.score <= bound) by {
        assert(v[i] matches Some(e) ==> e.depth <= d1 && -bound <= e.score <= bound);
    }
}

/// Storing under one key leaves the entry found under another key unchanged
/// when the bucket already holds the stored key or still has an empty slot.
pub proof fn lemma_store_keeps_others(v: Seq<Option<TableEntry>>, base: int, key: u64, e: TableEntry, other: u64)
    requires
        0 <= base,
        base + 4 <= v.len(),
        key != other,
        find_key(v, base, key, 0) is Some || find_empty(v, base, 0) is Some,
    ensures
        spec_lookup(spec_store(v, base, key, e), base, other) == spec_lookup(v, base, other),
{
    let w = spec_store(v, base, key, e);
    lemma_find_key(v, base, key, 0);
    lemma_find_empty(v, base, 0);
    lemma_find_key(v, base, other, 0);
    lemma_find_key(w, base, other, 0);
    let j: int = match find_key(v, base, key, 0) {
        Some(i) => i,
        None => find_empty(v, base, 0)->0,
    };
    assert(w == v || w == v.update(base + j, Some(keyed(e, key))));
    assert forall|l: int| 0 <= l < 4 implies #[trigger] bucket_has(w, base, l, other) == bucket_has(v, base, l, other) by {
        if l == j {
            assert(!bucket_has(v, base, j, other));
        }
    }
    match find_key(v, base, other, 0) {
        Some(i) => {
            assert(bucket_has(w, base, i, other));
            match find_key(w, base, other, 0) {
                Some(i2) => {
                    if i2 < i {
                        assert(bucket_has(v, base, i2, other));
                    }
                    if i < i2 {
                        assert(bucket_has(w, base, i, other));
                    }
                    assert(i2 == i);
                    assert(w[base + i] == v[base + i]);
                },
                None => {},
            }
        },
        None => {
            match find_key(w, base, other, 0) {
                Some(i2) => {
                    assert(bucket_has(v, base, i2, other));
                },
                None => {},
            }
        },
    }
}

} // verus!
