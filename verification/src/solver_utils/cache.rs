use vstd::prelude::*;

use core::marker::PhantomData;

use crate::basic::Token;
use crate::board::lemmas::{lemma_mirror_value, lemma_num_moves_bounds};
use crate::board::model::{num_moves, value, wf_cols};
use crate::board::HashBoard;
use crate::solver_utils::position::Position;

verus! {

/// Very large prime number for hash table size
pub const LARGE_SIZE: usize = 50331653;

/// Relatively small prime number for smaller hash table
pub const SMALL_SIZE: usize = 393241;

/// The slot of the table with `size` buckets that `key` hashes to.
pub open spec fn slot_of(key: u64, size: usize) -> int {
    ((key as usize) % size) as int
}

/// Hash the given `key` into an index into
/// the inner table with `size` buckets
fn hash(key: u64, size: usize) -> (h: usize)
    requires
        size > 0,
    ensures
        h == slot_of(key, size),
        h < size,
{
    (key as usize) % size
}

/// A cache entry for a board and evaluation
#[derive(Debug, Clone, Copy, PartialEq, Eq)]
pub struct Entry {
    /// Board key (hash)
    pub key: u64,
    /// Entry depth (move count)
    pub depth: u16,
    /// Lower bound evaluation
    pub lower: i8,
    /// Upper bound evaluation
    pub upper: i8,
}

impl Entry {
    /// An entry for the board with the given key and move count, and the given bounds.
    pub fn new(key: u64, depth: usize, lower: isize, upper: isize) -> (e: Self)
        requires
            depth <= u16::MAX,
            i8::MIN <= lower <= i8::MAX,
            i8::MIN <= upper <= i8::MAX,
        ensures
            e.key == key,
            e.depth == depth,
            e.lower == lower,
            e.upper == upper,
    {
        Entry { key, depth: depth as u16, lower: lower as i8, upper: upper as i8 }
    }
}

/// The entry with the same key and bounds narrowed by those of `new`.
pub open spec fn tightened(old: Entry, new: Entry) -> Entry {
    Entry {
        key: old.key,
        depth: old.depth,
        lower: if old.lower >= new.lower {
            old.lower
        } else {
            new.lower
        },
        upper: if old.upper <= new.upper {
            old.upper
        } else {
            new.upper
        },
    }
}

/// Replacement by the lowest move count: same key narrows, a new key
/// replaces the old one if it is at most as deep.
pub open spec fn improved_deep(old: Entry, new: Entry) -> Entry {
    if old.key == new.key {
        tightened(old, new)
    } else if new.depth <= old.depth {
        new
    } else {
        old
    }
}

/// Replacement by recency: same key narrows, a new key always replaces.
pub open spec fn improved_recent(old: Entry, new: Entry) -> Entry {
    if old.key == new.key {
        tightened(old, new)
    } else {
        new
    }
}

/// Two-tiered entry, containing a deep entry (lowest move count)
/// and a recent entry (most recent).
#[derive(Debug, Clone, Copy, PartialEq, Eq)]
pub struct DoubleEntry {
    /// Entry (lowest move count)
    pub deep: Entry,
    /// Entry (most recent)
    pub recent: Entry,
}

/// The bounds stored for `key`, preferring the deep entry.
pub open spec fn double_lookup(d: DoubleEntry, key: u64) -> Option<(int, int)> {
    if d.deep.key == key {
        Some((d.deep.lower as int, d.deep.upper as int))
    } else if d.recent.key == key {
        Some((d.recent.lower as int, d.recent.upper as int))
    } else {
        None
    }
}

/// Both tiers improved by `new`.
pub open spec fn improved(d: DoubleEntry, new: Entry) -> DoubleEntry {
    DoubleEntry { deep: improved_deep(d.deep, new), recent: improved_recent(d.recent, new) }
}

impl DoubleEntry {
    /// Both tiers holding the given entry.
    pub fn new(entry: Entry) -> (d: Self)
        ensures
            d.deep == entry,
            d.recent == entry,
    {
        DoubleEntry { deep: entry, recent: entry }
    }

    /// The bounds stored for `key`, if either tier holds it.
    pub fn get(&self, key: u64) -> (r: Option<(isize, isize)>)
        ensures
            match r {
                None => double_lookup(*self, key) is None,
                Some(b) => double_lookup(*self, key) == Some((b.0 as int, b.1 as int)),
            },
    {
        if self.deep.key == key {
            return Some((self.deep.lower as isize, self.deep.upper as isize));
        }
        if self.recent.key == key {
            return Some((self.recent.lower as isize, self.recent.upper as isize));
        }
        None
    }

    /// Narrow the bounds of the same key.
    fn tighten(entry: &mut Entry, new: Entry)
        ensures
            *final(entry) == tightened(*old(entry), new),
    {
        if new.lower > entry.lower {
            entry.lower = new.lower;
        }
        if new.upper < entry.upper {
            entry.upper = new.upper;
        }
    }

    /// Replace by the lowest move count
    fn improve_deep(entry: &mut Entry, new: Entry)
        ensures
            *final(entry) == improved_deep(*old(entry), new),
    {
        if entry.key == new.key {
            Self::tighten(entry, new);
        } else if new.depth <= entry.depth {
            *entry = new;
        }
    }

    /// Always replace the old entry
    fn improve_recent(entry: &mut Entry, new: Entry)
        ensures
            *final(entry) == improved_recent(*old(entry), new),
    {
        if entry.key == new.key {
            Self::tighten(entry, new);
        } else {
            *entry = new;
        }
    }

    /// Given a hash collision with pre-existing entry and a new entry,
    /// choose which entry should take the place.
    pub fn improve(&mut self, new: Entry)
        ensures
            *final(self) == improved(*old(self), new),
    {
        let mut deep = self.deep;
        let mut recent = self.recent;
        Self::improve_deep(&mut deep, new);
        Self::improve_recent(&mut recent, new);
        self.deep = deep;
        self.recent = recent;
    }
}

/// Transposition Table Cache
/// Can store a HashBoard with a key of at most 49 bits
pub struct Cache<B> {
    table: Vec<Option<DoubleEntry>>,
    size: usize,
    pd: PhantomData<B>,
}

/// The bounds stored for `key` in a table of slots.
pub open spec fn table_lookup(slots: Seq<Option<DoubleEntry>>, size: usize, key: u64) -> Option<(int, int)> {
    match slots[slot_of(key, size)] {
        None => None,
        Some(d) => double_lookup(d, key),
    }
}

/// The slot after inserting `e` into it.
pub open spec fn slot_inserted(old: Option<DoubleEntry>, e: Entry) -> Option<DoubleEntry> {
    match old {
        None => Some(DoubleEntry { deep: e, recent: e }),
        Some(d) => Some(improved(d, e)),
    }
}

impl<B> Cache<B> {
    /// The slots of the table.
    pub closed spec fn slots(&self) -> Seq<Option<DoubleEntry>> {
        self.table@
    }

    /// Number of slots.
    pub closed spec fn size(&self) -> usize {
        self.size
    }

    /// The table has `size` slots, and at least one.
    pub closed spec fn wf(&self) -> bool {
        self.table@.len() == self.size && self.size > 0
    }

    /// A well-formed cache has `size` slots, and at least one.
    pub proof fn lemma_wf(&self)
        requires
            self.wf(),
        ensures
            self.slots().len() == self.size(),
            self.size() > 0,
    {
    }

    /// The bounds stored for `key`.
    pub open spec fn lookup(&self, key: u64) -> Option<(int, int)> {
        table_lookup(self.slots(), self.size(), key)
    }

    /// Construct a new cache with the given amount
    /// of space
    pub fn new(size: usize) -> (c: Self)
        requires
            size > 0,
        ensures
            c.wf(),
            c.size() == size,
            forall|i: int| 0 <= i < size ==> #[trigger] c.slots()[i] is None,
            forall|key: u64| #[trigger] c.lookup(key) is None,
    {
        let mut table: Vec<Option<DoubleEntry>> = Vec::new();
        let mut i: usize = 0;
        while i < size
            invariant
                i <= size,
                table@.len() == i,
                forall|j: int| 0 <= j < i ==> #[trigger] table@[j] is None,
            decreases size - i,
        {
            table.push(None);
            i = i + 1;
        }
        Cache { table, size, pd: PhantomData }
    }

    /// Construct a new cache with a large amount
    /// of space.
    pub fn new_large() -> (c: Self)
        ensures
            c.wf(),
            c.size() == LARGE_SIZE,
            forall|i: int| 0 <= i < LARGE_SIZE ==> #[trigger] c.slots()[i] is None,
    {
        Self::new(LARGE_SIZE)
    }

    /// Construct a new cache with a small amount
    /// of space.
    pub fn new_small() -> (c: Self)
        ensures
            c.wf(),
            c.size() == SMALL_SIZE,
            forall|i: int| 0 <= i < SMALL_SIZE ==> #[trigger] c.slots()[i] is None,
    {
        Self::new(SMALL_SIZE)
    }

    /// Clear the table by emptying every slot
    pub fn clear(&mut self)
        requires
            old(self).wf(),
        ensures
            final(self).wf(),
            final(self).size() == old(self).size(),
            forall|i: int| 0 <= i < final(self).size() ==> #[trigger] final(self).slots()[i] is None,
            forall|key: u64| #[trigger] final(self).lookup(key) is None,
    {
        let mut i: usize = 0;
        while i < self.size
            invariant
                i <= self.size,
                self.size == old(self).size,
                self.table@.len() == self.size,
                self.size > 0,
                forall|j: int| 0 <= j < i ==> #[trigger] self.table@[j] is None,
            decreases self.size - i,
        {
            self.table.set(i, None);
            i = i + 1;
        }
    }
}

/// Every board that could have this entry's key has its value within its
/// bounds, and the bounds lie within the widest search window.
pub open spec fn entry_sound<B: HashBoard>(e: Entry) -> bool {
    &&& forall|m: Seq<Seq<Token>>|
        #![trigger B::key_model(m)]
        wf_cols(m) && B::key_model(m) == e.key ==> e.lower <= value(m) <= e.upper
    &&& -crate::solvers::WINDOW <= e.lower
    &&& e.upper <= crate::solvers::WINDOW
}

/// Both tiers of the slot are sound.
pub open spec fn slot_sound<B: HashBoard>(s: Option<DoubleEntry>) -> bool {
    match s {
        None => true,
        Some(d) => entry_sound::<B>(d.deep) && entry_sound::<B>(d.recent),
    }
}

impl<B: HashBoard> Cache<B> {
    /// Every stored bound holds of the value of every board with its key.
    pub open spec fn sound(&self) -> bool {
        &&& self.wf()
        &&& forall|i: int| 0 <= i < self.size() ==> slot_sound::<B>(#[trigger] self.slots()[i])
    }
}

/// Every bound the cache holds for the key of a board holds of `f` at that
/// board.
pub open spec fn sound_for<B: HashBoard>(c: Cache<B>, f: spec_fn(Seq<Seq<Token>>) -> int) -> bool {
    forall|m: Seq<Seq<Token>>|
        wf_cols(m) && #[trigger] c.lookup(B::key_model(m)) is Some ==> c.lookup(B::key_model(m)).unwrap().0
            <= f(m) <= c.lookup(B::key_model(m)).unwrap().1
}

/// Inserting into a cache that is sound for a valuation `f` bounds that
/// hold of `f` at the board keeps it sound for `f`, where `f` agrees on
/// boards with one key. The lookups of a cache before and after `insert`
/// are related as its `ensures` state.
pub proof fn lemma_insert_sound_for<B: HashBoard>(
    old: Cache<B>,
    new: Cache<B>,
    m: Seq<Seq<Token>>,
    lower: int,
    upper: int,
    f: spec_fn(Seq<Seq<Token>>) -> int,
)
    requires
        sound_for(old, f),
        wf_cols(m),
        lower <= f(m) <= upper,
        forall|m1: Seq<Seq<Token>>, m2: Seq<Seq<Token>>|
            wf_cols(m1) && wf_cols(m2) && #[trigger] B::key_model(m1) == #[trigger] B::key_model(m2) ==> f(m1)
                == f(m2),
        new.lookup(B::key_model(m)) == Some((lower, upper)) || (old.lookup(B::key_model(m)) matches Some(
            b,
        ) && new.lookup(B::key_model(m)) == Some(
            (if b.0 >= lower {
                b.0
            } else {
                lower
            }, if b.1 <= upper {
                b.1
            } else {
                upper
            }),
        )),
        forall|k: u64|
            k != B::key_model(m) ==> #[trigger] new.lookup(k) is None || new.lookup(k) == old.lookup(k),
    ensures
        sound_for(new, f),
{
    assert forall|x: Seq<Seq<Token>>| wf_cols(x) && #[trigger] new.lookup(B::key_model(x)) is Some implies new.lookup(
        B::key_model(x),
    ).unwrap().0 <= f(x) <= new.lookup(B::key_model(x)).unwrap().1 by {
        let kx = B::key_model(x);
        if kx == B::key_model(m) {
            assert(f(x) == f(m));
            if new.lookup(kx) != Some((lower, upper)) {
                assert(old.lookup(B::key_model(m)) is Some);
            }
        } else {
            assert(new.lookup(kx) == old.lookup(kx));
        }
    }
}

/// An entry whose bounds hold for one board with its key holds for all of them.
proof fn lemma_entry_sound<B: HashBoard>(m: Seq<Seq<Token>>, e: Entry)
    requires
        wf_cols(m),
        B::key_model(m) == e.key,
        e.lower <= value(m) <= e.upper,
        -crate::solvers::WINDOW <= e.lower,
        e.upper <= crate::solvers::WINDOW,
    ensures
        entry_sound::<B>(e),
{
    assert forall|m2: Seq<Seq<Token>>|
        #![trigger B::key_model(m2)]
        wf_cols(m2) && B::key_model(m2) == e.key implies e.lower <= value(m2) <= e.upper by {
        B::lemma_key_model(m2, m);
        lemma_mirror_value(m);
    }
}

/// Improving sound entries with a sound entry keeps them sound.
proof fn lemma_improved_sound<B: HashBoard>(d: DoubleEntry, e: Entry)
    requires
        entry_sound::<B>(d.deep),
        entry_sound::<B>(d.recent),
        entry_sound::<B>(e),
    ensures
        entry_sound::<B>(improved(d, e).deep),
        entry_sound::<B>(improved(d, e).recent),
{
}

impl<B: HashBoard + Position> Cache<B> {
    /// Tries to get the entry corresponding to the given board,
    /// returning `None` if it doesn't exist, `Some(lower, upper)`
    /// otherwise.
    pub fn get(&self, board: &B) -> (r: Option<(isize, isize)>)
        requires
            self.wf(),
            board.inv(),
        ensures
            match r {
                None => self.lookup(B::key_model(board.model())) is None,
                Some(b) => self.lookup(B::key_model(board.model())) == Some((b.0 as int, b.1 as int)),
            },
            self.sound() && r is Some ==> r.unwrap().0 <= value(board.model()) <= r.unwrap().1,
            self.sound() && r is Some ==> -crate::solvers::WINDOW <= r.unwrap().0 && r.unwrap().1
                <= crate::solvers::WINDOW,
    {
        let key = board.key();
        let hash = hash(key, self.size);
        proof {
            board.lemma_inv();
        }
        match self.table[hash] {
            None => None,
            Some(entries) => entries.get(key),
        }
    }

    /// Search the cache for an entry for board and, if found,
    /// narrow the given bounds and return them as (alpha, beta)
    pub fn get_and_bound(&self, board: &B, alpha: isize, beta: isize) -> (r: (isize, isize))
        requires
            self.wf(),
            board.inv(),
        ensures
            r == match self.lookup(B::key_model(board.model())) {
                None => (alpha, beta),
                Some(b) => (
                    if alpha >= b.0 {
                        alpha
                    } else {
                        b.0 as isize
                    },
                    if beta <= b.1 {
                        beta
                    } else {
                        b.1 as isize
                    },
                ),
            },
            self.sound() && self.lookup(B::key_model(board.model())) is Some
                ==> self.lookup(B::key_model(board.model())).unwrap().0 <= value(board.model())
                <= self.lookup(B::key_model(board.model())).unwrap().1,
            self.sound() && self.lookup(B::key_model(board.model())) is Some
                ==> -crate::solvers::WINDOW <= self.lookup(B::key_model(board.model())).unwrap().0
                && self.lookup(B::key_model(board.model())).unwrap().1 <= crate::solvers::WINDOW,
    {
        match self.get(board) {
            None => (alpha, beta),
            Some((lower, upper)) => {
                let alpha = if alpha >= lower {
                    alpha
                } else {
                    lower
                };
                let beta = if beta <= upper {
                    beta
                } else {
                    upper
                };
                (alpha, beta)
            },
        }
    }

    /// Insert the board into the cache with lower and upper bound.
    /// Bounds that hold of the board's value keep the cache sound.
    pub fn insert(&mut self, board: &B, lower: isize, upper: isize)
        requires
            old(self).wf(),
            board.inv(),
            i8::MIN <= lower <= i8::MAX,
            i8::MIN <= upper <= i8::MAX,
        ensures
            final(self).wf(),
            final(self).size() == old(self).size(),
            final(self).slots() == old(self).slots().update(
                slot_of(B::key_model(board.model()), old(self).size()),
                slot_inserted(
                    old(self).slots()[slot_of(B::key_model(board.model()), old(self).size())],
                    Entry {
                        key: B::key_model(board.model()),
                        depth: num_moves(board.model()) as u16,
                        lower: lower as i8,
                        upper: upper as i8,
                    },
                ),
            ),
            old(self).sound() && lower <= value(board.model()) <= upper && -crate::solvers::WINDOW
                <= lower && upper <= crate::solvers::WINDOW ==> final(self).sound(),
            final(self).lookup(B::key_model(board.model())) == Some((lower as int, upper as int)) || (old(
                self,
            ).lookup(B::key_model(board.model())) matches Some(b) && final(self).lookup(
                B::key_model(board.model()),
            ) == Some(
                (
                    if b.0 >= lower {
                        b.0
                    } else {
                        lower as int
                    },
                    if b.1 <= upper {
                        b.1
                    } else {
                        upper as int
                    },
                ),
            )),
            forall|k: u64|
                slot_of(k, old(self).size()) != slot_of(B::key_model(board.model()), old(self).size())
                    ==> #[trigger] final(self).lookup(k) == old(self).lookup(k),
            forall|k: u64|
                k != B::key_model(board.model()) ==> #[trigger] final(self).lookup(k) is None
                    || final(self).lookup(k) == old(self).lookup(k),
    {
        proof {
            board.lemma_inv();
            lemma_num_moves_bounds(board.model());
        }
        let key = board.key();
        let entry = Entry::new(key, board.move_count(), lower, upper);
        let hash = hash(key, self.size);
        let slot = self.table[hash];
        let new_slot = match slot {
            Some(old) => {
                let mut d = old;
                d.improve(entry);
                Some(d)
            },
            None => Some(DoubleEntry::new(entry)),
        };
        self.table.set(hash, new_slot);
        proof {
            if old(self).sound() && lower <= value(board.model()) <= upper && -crate::solvers::WINDOW
                <= lower && upper <= crate::solvers::WINDOW {
                lemma_entry_sound::<B>(board.model(), entry);
                match slot {
                    Some(d) => {
                        assert(slot_sound::<B>(old(self).slots()[hash as int]));
                        lemma_improved_sound::<B>(d, entry);
                    },
                    None => {},
                }
                assert forall|i: int| 0 <= i < self.size() implies slot_sound::<B>(
                    #[trigger] self.slots()[i],
                ) by {
                    if i != hash {
                        assert(self.slots()[i] == old(self).slots()[i]);
                    }
                }
            }
        }
    }

    /// Given a board with an initial alpha, best eval (updated alpha)
    /// and beta bound, inserts an entry into the hash table with the
    /// appropriate bound type: an upper bound if `best <= prev_alpha`,
    /// a lower bound if `best >= beta`, else the exact value.
    pub fn insert_bounded(&mut self, board: &B, prev_alpha: isize, best: isize, beta: isize)
        requires
            old(self).wf(),
            board.inv(),
            i8::MIN <= best <= i8::MAX,
        ensures
            final(self).wf(),
            final(self).size() == old(self).size(),
            final(self).slots() == old(self).slots().update(
                slot_of(B::key_model(board.model()), old(self).size()),
                slot_inserted(
                    old(self).slots()[slot_of(B::key_model(board.model()), old(self).size())],
                    Entry {
                        key: B::key_model(board.model()),
                        depth: num_moves(board.model()) as u16,
                        lower: (if best <= prev_alpha {
                            crate::board::model::will_lose_eval(num_moves(board.model()))
                        } else {
                            best as int
                        }) as i8,
                        upper: (if best <= prev_alpha {
                            best as int
                        } else if best >= beta {
                            crate::board::model::will_win_eval(num_moves(board.model()))
                        } else {
                            best as int
                        }) as i8,
                    },
                ),
            ),
            old(self).sound() && -crate::solvers::WINDOW <= best <= crate::solvers::WINDOW && (best
                <= prev_alpha ==> value(board.model()) <= best) && (best
                >= beta ==> value(board.model()) >= best) && (prev_alpha < best < beta ==> value(
                board.model(),
            ) == best) ==> final(self).sound(),
    {
        proof {
            board.lemma_inv();
            lemma_num_moves_bounds(board.model());
            crate::board::lemmas::lemma_value_bounds(board.model());
        }
        let mut lower = board.will_lose_eval();
        let mut upper = board.will_win_eval();
        if best <= prev_alpha {
            upper = best;  // upper bound
        } else if best >= beta {
            lower = best;  // lower bound
        } else {
            // exact bound
            lower = best;
            upper = best;
        }
        self.insert(board, lower, upper);
    }
}

} // verus!
