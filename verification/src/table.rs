//! The self-adjusting table that maps decode ranks to literal bytes.

use vstd::prelude::*;

verus! {

/// A placement counter above this quota triggers a correction of the table.
pub const PLACEMENT_QUOTA: u8 = 0xA1;

/// What a table is: the literal at each of the 256 ranks, and one placement
/// counter for each literal.
pub struct TableState {
    pub ranks: Seq<u8>,
    pub counters: Seq<u8>,
}

impl TableState {
    /// Both sequences cover the alphabet, no literal stands at two ranks,
    /// and no counter is above the quota.
    pub open spec fn wf(self) -> bool {
        &&& self.ranks.len() == 256
        &&& self.counters.len() == 256
        &&& forall|a: int, b: int|
            0 <= a < 256 && 0 <= b < 256 && a != b ==> self.ranks[a] != self.ranks[b]
        &&& forall|i: int| 0 <= i < 256 ==> self.counters[i] <= PLACEMENT_QUOTA
    }

    /// The table in identity order, with every counter at zero.
    pub open spec fn identity() -> TableState {
        TableState { ranks: Seq::new(256, |i: int| i as u8), counters: Seq::new(256, |i: int| 0u8) }
    }

    /// The literal at `rank`.
    pub open spec fn lookup(self, rank: u8) -> u8 {
        self.ranks[rank as int]
    }

    /// The table after the literal at `rank` was decoded.
    ///
    /// The literal's counter goes up by one.  Above the quota the whole table
    /// is corrected; otherwise the literal changes places with the entry at
    /// the rank that equals the new count.
    pub open spec fn promote(self, rank: u8) -> TableState {
        let literal = self.ranks[rank as int];
        let count = self.counters[literal as int] + 1;
        if count > PLACEMENT_QUOTA {
            Self::identity()
        } else {
            TableState {
                ranks: self.ranks.update(rank as int, self.ranks[count]).update(count, literal),
                counters: self.counters.update(literal as int, count as u8),
            }
        }
    }
}

/// The identity table is valid, and every rank of it holds the literal of
/// the same number, with all counters at zero.
pub proof fn lemma_identity(rank: u8)
    ensures
        TableState::identity().wf(),
        TableState::identity().lookup(rank) == rank,
        TableState::identity().counters[rank as int] == 0,
{
}

/// A promotion keeps the table valid.
pub proof fn lemma_promote_wf(t: TableState, rank: u8)
    requires
        t.wf(),
    ensures
        t.promote(rank).wf(),
{
    lemma_identity(rank);
}

/// The table of one decoding session.
pub struct AdaptiveSymbolTable {
    ranks: Vec<u8>,
    counters: Vec<u8>,
}

impl View for AdaptiveSymbolTable {
    type V = TableState;

    closed spec fn view(&self) -> TableState {
        TableState { ranks: self.ranks@, counters: self.counters@ }
    }
}

impl AdaptiveSymbolTable {
    /// The table's invariant is that of its model.
    pub open spec fn wf(&self) -> bool {
        self@.wf()
    }

    /// A fresh table, in identity order.
    pub fn new() -> (r: Self)
        ensures
            r.wf(),
            r@ == TableState::identity(),
    {
        let mut r = AdaptiveSymbolTable { ranks: vec![0u8; 256], counters: vec![0u8; 256] };
        r.fill_identity();
        r
    }

    fn fill_identity(&mut self)
        requires
            old(self).ranks@.len() == 256,
            old(self).counters@.len() == 256,
        ensures
            final(self)@ == TableState::identity(),
            final(self).wf(),
    {
        let mut i: usize = 0;
        while i < 256
            invariant
                i <= 256,
                self.ranks@.len() == 256,
                self.counters@.len() == 256,
                forall|j: int| 0 <= j < i ==> self.ranks@[j] == j as u8 && self.counters@[j] == 0,
            decreases 256 - i,
        {
            self.ranks[i] = i as u8;
            self.counters[i] = 0;
            i = i + 1;
        }
        assert(self.ranks@ =~= TableState::identity().ranks);
        assert(self.counters@ =~= TableState::identity().counters);
    }

    /// The literal at `rank`.
    pub fn lookup(&self, rank: u8) -> (r: u8)
        requires
            self.wf(),
        ensures
            r == self@.lookup(rank),
    {
        self.ranks[rank as usize]
    }

    /// The placement counter of `literal`.
    pub fn counter(&self, literal: u8) -> (r: u8)
        requires
            self.wf(),
        ensures
            r == self@.counters[literal as int],
            r <= PLACEMENT_QUOTA,
    {
        self.counters[literal as usize]
    }

    /// Records that the literal at `rank` was decoded.
    pub fn promote(&mut self, rank: u8)
        requires
            old(self).wf(),
        ensures
            final(self).wf(),
            final(self)@ == old(self)@.promote(rank),
    {
        let literal: u8 = self.ranks[rank as usize];
        let count: u8 = self.counters[literal as usize] + 1;
        if count > PLACEMENT_QUOTA {
            self.fill_identity();
        } else {
            let place: usize = count as usize;
            let other: u8 = self.ranks[place];
            self.ranks[rank as usize] = other;
            self.ranks[place] = literal;
            self.counters[literal as usize] = count;
        }
    }

    /// Resets the table to identity order and every counter to zero.
    ///
    /// Afterwards every rank holds the literal of the same number.
    pub fn correct(&mut self)
        requires
            old(self).wf(),
        ensures
            final(self).wf(),
            final(self)@ == TableState::identity(),
            forall|rank: u8| final(self)@.lookup(rank) == rank,
            forall|literal: u8| final(self)@.counters[literal as int] == 0,
    {
        self.fill_identity();
    }
}

} // verus!
