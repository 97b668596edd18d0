//! The cadence of resynchronization while recording: after how many depth
//! updates of a symbol a full book is asked for again.

use vstd::prelude::*;

verus! {

/// For every recorded symbol, the number of depth updates since a full
/// book was last asked for.
#[derive(Debug)]
pub struct CorrectionSchedule {
    symbols: Vec<String>,
    ticks: Vec<u64>,
    interval: u64,
}

/// The place of `symbol` among `symbols`, the first if it occurs twice.
pub open spec fn place_of(symbols: Seq<Seq<char>>, symbol: Seq<char>, from: int) -> int
    decreases symbols.len() - from,
{
    if from < 0 || from >= symbols.len() {
        symbols.len() as int
    } else if symbols[from] == symbol {
        from
    } else {
        place_of(symbols, symbol, from + 1)
    }
}

/// A full book is due after this update: the update is the last of
/// `interval` since the book was last asked for.
pub open spec fn correction_due(count: u64, interval: u64) -> bool {
    interval > 0 && count + 1 == interval
}

/// The count of a symbol after one more depth update: back to zero when a
/// full book is due, one more otherwise. Without an interval nothing is
/// counted.
pub open spec fn next_count(count: u64, interval: u64) -> u64 {
    if interval == 0 || correction_due(count, interval) {
        0
    } else {
        (count + 1) as u64
    }
}

impl CorrectionSchedule {
    /// The symbols that are recorded.
    pub closed spec fn symbols(&self) -> Seq<Seq<char>> {
        self.symbols@.map_values(|symbol: String| symbol@)
    }

    /// The counts, each at the place of its symbol.
    pub closed spec fn counts(&self) -> Seq<u64> {
        self.ticks@
    }

    /// After how many depth updates a full book is asked for.
    pub closed spec fn interval(&self) -> u64 {
        self.interval
    }

    #[verifier::type_invariant]
    spec fn well_formed(self) -> bool {
        &&& self.symbols.len() == self.ticks.len()
        &&& forall|i: int| 0 <= i < self.ticks.len() ==> (#[trigger] self.ticks@[i]) < self.interval || self.ticks@[i] == 0
    }

    /// A schedule for `symbols` that asks for a full book after every
    /// `interval` depth updates of a symbol, with nothing counted yet.
    pub fn new(symbols: Vec<String>, interval: u64) -> (schedule: CorrectionSchedule)
        ensures
            schedule.symbols() == symbols@.map_values(|symbol: String| symbol@),
            schedule.counts() == Seq::new(symbols.len() as nat, |i: int| 0u64),
            schedule.interval() == interval,
    {
        let n = symbols.len();
        let mut ticks: Vec<u64> = Vec::new();
        let mut i: usize = 0;
        while i < n
            invariant
                0 <= i <= n,
                n == symbols.len(),
                ticks@ == Seq::new(i as nat, |k: int| 0u64),
            decreases n - i,
        {
            ticks.push(0);
            assert(ticks@ =~= Seq::new((i + 1) as nat, |k: int| 0u64));
            i += 1;
        }
        CorrectionSchedule { symbols, ticks, interval }
    }

    /// Counts one depth update of `symbol` and says whether a full book is
    /// due; none, if the symbol is not recorded.
    pub fn on_update(&mut self, symbol: &String) -> (due: Option<bool>)
        ensures
            final(self).symbols() == old(self).symbols(),
            final(self).interval() == old(self).interval(),
            ({
                let place = place_of(old(self).symbols(), symbol@, 0);
                if place < old(self).symbols().len() {
                    &&& place < old(self).counts().len()
                    &&& due == Some(correction_due(old(self).counts()[place], old(self).interval()))
                    &&& final(self).counts() == old(self).counts().update(
                        place,
                        next_count(old(self).counts()[place], old(self).interval()),
                    )
                } else {
                    &&& due is None
                    &&& final(self).counts() == old(self).counts()
                }
            }),
    {
        proof {
            use_type_invariant(&*self);
        }
        let n = self.symbols.len();
        let mut i: usize = 0;
        while i < n && self.symbols[i] != *symbol
            invariant
                0 <= i <= n,
                n == self.symbols.len(),
                place_of(self.symbols(), symbol@, 0) == place_of(self.symbols(), symbol@, i as int),
            decreases n - i,
        {
            i += 1;
        }
        if i == n {
            return None;
        }
        let count = self.ticks[i];
        let interval = self.interval;
        let due = interval > 0 && count + 1 == interval;
        let next: u64 = if interval == 0 || due {
            0
        } else {
            count + 1
        };
        let mut taken = CorrectionSchedule { symbols: Vec::new(), ticks: Vec::new(), interval };
        core::mem::swap(self, &mut taken);
        let CorrectionSchedule { symbols, ticks, interval } = taken;
        let mut ticks = ticks;
        ticks.set(i, next);
        *self = CorrectionSchedule { symbols, ticks, interval };
        Some(due)
    }
}

} // verus!
