//! The transposition table: what earlier searches found, by fingerprint.
use vstd::prelude::*;
use std::collections::HashMap;
use crate::board::Move;
use crate::eval::MAX_SCORE;

verus! {

broadcast use vstd::std_specs::hash::group_hash_axioms;

/// Number of entries at which the table is emptied.
pub const MAX_TT_SIZE: usize = 30_000_000;

/// What a stored score says about the true score of its position.
#[derive(Clone, Copy, Debug, PartialEq, Eq, Structural)]
pub enum TTFlag {
    /// The score is the score of the position.
    Exact,
    /// The search failed high: the true score is at least the stored one.
    LowerBound,
    /// The search failed low: the true score is at most the stored one.
    UpperBound,
}

/// One entry of the table.
#[derive(Clone, Copy, Debug)]
pub struct TTEntry {
    pub best_move: Option<Move>,
    pub eval: i32,
    pub depth: i32,
    pub flag: TTFlag,
}

impl TTEntry {
    /// The stored score lies in the range of scores.
    pub open spec fn wf(&self) -> bool {
        -MAX_SCORE <= self.eval <= MAX_SCORE
    }
}

/// The table `m` after an entry for `key` has been offered: the entry is
/// taken unless the table already holds one for that key from a deeper
/// search.
pub open spec fn table_after_store(m: Map<u64, TTEntry>, key: u64, entry: TTEntry) -> Map<
    u64,
    TTEntry,
> {
    if m.contains_key(key) && m[key].depth > entry.depth {
        m
    } else {
        m.insert(key, entry)
    }
}

/// The table `m` after the check against its ceiling: empty where it had
/// reached the ceiling, untouched otherwise.
pub open spec fn table_after_check(m: Map<u64, TTEntry>, ceiling: usize) -> Map<u64, TTEntry> {
    if m.len() >= ceiling {
        Map::<u64, TTEntry>::empty()
    } else {
        m
    }
}

/// The table, with the number of entries at which it is emptied.
pub struct TranspositionTable {
    pub entries: HashMap<u64, TTEntry>,
    pub ceiling: usize,
}

impl View for TranspositionTable {
    type V = Map<u64, TTEntry>;

    open spec fn view(&self) -> Map<u64, TTEntry> {
        self.entries@
    }
}

impl TranspositionTable {
    /// Every stored score lies in the range of scores.
    pub open spec fn wf(&self) -> bool {
        forall|k: u64| #[trigger] self@.contains_key(k) ==> self@[k].wf()
    }

    /// An empty table that is emptied again at `MAX_TT_SIZE` entries.
    pub fn new() -> (t: TranspositionTable)
        ensures
            t@ == Map::<u64, TTEntry>::empty(),
            t.ceiling == MAX_TT_SIZE,
            t.wf(),
    {
        TranspositionTable { entries: HashMap::new(), ceiling: MAX_TT_SIZE }
    }

    /// An empty table that is emptied again at `ceiling` entries.
    pub fn with_ceiling(ceiling: usize) -> (t: TranspositionTable)
        ensures
            t@ == Map::<u64, TTEntry>::empty(),
            t.ceiling == ceiling,
            t.wf(),
    {
        TranspositionTable { entries: HashMap::new(), ceiling }
    }

    /// Number of entries.
    pub fn len(&self) -> (n: usize)
        ensures
            n == self@.len(),
    {
        self.entries.len()
    }

    /// The entry stored for `key`, if there is one.
    pub fn probe(&self, key: u64) -> (found: Option<TTEntry>)
        ensures
            found == if self@.contains_key(key) {
                Some(self@[key])
            } else {
                None
            },
    {
        match self.entries.get(&key) {
            Some(e) => Some(*e),
            None => None,
        }
    }

    /// Offers an entry for `key`. It replaces what the table holds for that
    /// key unless that came from a deeper search.
    pub fn store(&mut self, key: u64, entry: TTEntry)
        requires
            old(self).wf(),
            entry.wf(),
        ensures
            final(self)@ == table_after_store(old(self)@, key, entry),
            final(self).ceiling == old(self).ceiling,
            final(self).wf(),
    {
        let keep = match self.entries.get(&key) {
            Some(e) => e.depth > entry.depth,
            None => false,
        };
        if !keep {
            self.entries.insert(key, entry);
        }
    }

    /// Empties the table if it has reached its ceiling, and says whether it
    /// did.
    pub fn clear_if_full(&mut self) -> (cleared: bool)
        requires
            old(self).wf(),
        ensures
            cleared == (old(self)@.len() >= old(self).ceiling),
            final(self)@ == table_after_check(old(self)@, old(self).ceiling),
            final(self).ceiling == old(self).ceiling,
            final(self).wf(),
    {
        if self.entries.len() >= self.ceiling {
            self.entries.clear();
            true
        } else {
            false
        }
    }
}

} // verus!
