use vstd::prelude::*;

verus! {

/// Points for one lock that clears `n` rows.
pub open spec fn points(n: nat) -> nat {
    if n == 4 {
        800
    } else if n == 3 {
        500
    } else if n == 2 {
        300
    } else if n == 1 {
        100
    } else {
        0
    }
}

/// Running totals of a game. Every counter only grows.
#[derive(Clone, Copy, PartialEq, Eq, Structural, Hash, Debug)]
pub struct Score {
    pub cleared_rows: usize,
    pub score: usize,
    pub dropped_pieces: usize,
    pub fours: usize,
    pub threes: usize,
    pub twos: usize,
    pub ones: usize,
}

/// The bound below which every counter of a score stays, so that one more
/// lock cannot overflow it.
pub const COUNTER_LIMIT: usize = 0x7fff_0000;

impl Score {
    pub open spec fn is_zero(self) -> bool {
        self.cleared_rows == 0 && self.score == 0 && self.dropped_pieces == 0 && self.fours == 0
            && self.threes == 0 && self.twos == 0 && self.ones == 0
    }

    /// Room is left in every counter for one more lock.
    pub open spec fn has_room(self) -> bool {
        self.cleared_rows < COUNTER_LIMIT && self.score < COUNTER_LIMIT && self.dropped_pieces
            < COUNTER_LIMIT && self.fours < COUNTER_LIMIT && self.threes < COUNTER_LIMIT
            && self.twos < COUNTER_LIMIT && self.ones < COUNTER_LIMIT
    }

    /// The totals after one lock that cleared `n` rows.
    pub open spec fn after_lock(self, n: nat) -> Score {
        Score {
            cleared_rows: (self.cleared_rows + n) as usize,
            score: (self.score + points(n)) as usize,
            dropped_pieces: (self.dropped_pieces + 1) as usize,
            fours: if n == 4 { (self.fours + 1) as usize } else { self.fours },
            threes: if n == 3 { (self.threes + 1) as usize } else { self.threes },
            twos: if n == 2 { (self.twos + 1) as usize } else { self.twos },
            ones: if n == 1 { (self.ones + 1) as usize } else { self.ones },
        }
    }

    /// Adds a clear of `n_cleans` rows: the row count, the points of the
    /// scoring table, and the tally for that number of rows.
    pub fn on_lines_clear(&mut self, n_cleans: usize)
        requires
            old(self).has_room(),
            n_cleans <= 1000,
        ensures
            final(self).cleared_rows == old(self).cleared_rows + n_cleans,
            final(self).score == old(self).score + points(n_cleans as nat),
            final(self).dropped_pieces == old(self).dropped_pieces,
            final(self).fours == old(self).fours + if n_cleans == 4 { 1int } else { 0int },
            final(self).threes == old(self).threes + if n_cleans == 3 { 1int } else { 0int },
            final(self).twos == old(self).twos + if n_cleans == 2 { 1int } else { 0int },
            final(self).ones == old(self).ones + if n_cleans == 1 { 1int } else { 0int },
    {
        self.cleared_rows += n_cleans;
        self.score += match n_cleans {
            4 => 800,
            3 => 500,
            2 => 300,
            1 => 100,
            _ => 0,
        };
        match n_cleans {
            4 => self.fours += 1,
            3 => self.threes += 1,
            2 => self.twos += 1,
            1 => self.ones += 1,
            _ => {},
        }
    }

    /// Counts one more locked piece.
    pub fn on_drop(&mut self)
        requires
            old(self).dropped_pieces < usize::MAX,
        ensures
            *final(self) == (Score { dropped_pieces: (old(self).dropped_pieces + 1) as usize, ..*old(self) }),
    {
        self.dropped_pieces += 1;
    }
}

impl Default for Score {
    fn default() -> (r: Score)
        ensures
            r.is_zero(),
    {
        Score { cleared_rows: 0, score: 0, dropped_pieces: 0, fours: 0, threes: 0, twos: 0, ones: 0 }
    }
}

} // verus!
