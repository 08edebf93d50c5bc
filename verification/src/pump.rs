//! Bookkeeping of the zero-copy packet pump: the counters the
//! per-interface loop keeps while it services completions, receives
//! batches, and refills the receive pool, and the decisions it takes
//! from them.

use vstd::prelude::*;

verus! {

/// Per-buffer user data carried alongside each packet buffer.
#[derive(Default, Copy, Clone, Debug)]
pub struct BufCustom {}

/// Which direction a pump endpoint serves.
#[derive(Clone, Copy, Debug, PartialEq, Eq, Structural)]
pub enum StateType {
    Rx,
    Tx,
}

/// The batch size of one pump iteration.
pub const BATCH_SIZE: usize = 32;

/// The counters of one pump loop: how many buffers sit outside the
/// pool, the worst it has been, the fill-ring deficit, and the running
/// service and receive totals.
pub struct PumpCounters {
    pub buffered: usize,
    pub max_buffered: usize,
    pub fill_deficit: usize,
    pub serviced: usize,
    pub received: usize,
}

impl PumpCounters {
    /// Fresh counters.
    pub fn new() -> (c: PumpCounters)
        ensures
            c.buffered == 0,
            c.max_buffered == 0,
            c.fill_deficit == 0,
            c.serviced == 0,
            c.received == 0,
    {
        PumpCounters { buffered: 0, max_buffered: 0, fill_deficit: 0, serviced: 0, received: 0 }
    }

    /// Account for `n` transmitted buffers coming back from the
    /// completion ring: they are no longer out of the pool.
    pub fn on_serviced(&mut self, n: usize)
        requires
            n <= old(self).buffered,
            old(self).serviced + n <= usize::MAX,
        ensures
            final(self).buffered == old(self).buffered - n,
            final(self).serviced == old(self).serviced + n,
            final(self).max_buffered == (if old(self).max_buffered < old(self).buffered {
                old(self).buffered
            } else {
                old(self).max_buffered
            }),
            final(self).fill_deficit == old(self).fill_deficit,
            final(self).received == old(self).received,
    {
        if self.max_buffered < self.buffered {
            self.max_buffered = self.buffered;
        }
        self.buffered = self.buffered - n;
        self.serviced = self.serviced + n;
    }

    /// Account for a received batch of `n` buffers: they are out of the
    /// pool, and the fill ring owes `n` more.
    pub fn on_received(&mut self, n: usize)
        requires
            old(self).buffered + n <= usize::MAX,
            old(self).received + n <= usize::MAX,
            old(self).fill_deficit + n <= usize::MAX,
        ensures
            final(self).buffered == old(self).buffered + n,
            final(self).received == old(self).received + n,
            final(self).fill_deficit == old(self).fill_deficit + n,
            final(self).serviced == old(self).serviced,
            final(self).max_buffered == old(self).max_buffered,
    {
        self.buffered = self.buffered + n;
        self.received = self.received + n;
        self.fill_deficit = self.fill_deficit + n;
    }

    /// The pump refills the receive pool only once a whole batch is
    /// owed.
    pub fn should_fill(&self) -> (r: bool)
        ensures
            r <==> self.fill_deficit >= BATCH_SIZE,
    {
        self.fill_deficit >= BATCH_SIZE
    }

    /// Account for `n` buffers handed back to the fill ring.
    pub fn on_filled(&mut self, n: usize)
        requires
            n <= old(self).fill_deficit,
        ensures
            final(self).fill_deficit == old(self).fill_deficit - n,
            final(self).buffered == old(self).buffered,
            final(self).serviced == old(self).serviced,
            final(self).received == old(self).received,
            final(self).max_buffered == old(self).max_buffered,
    {
        self.fill_deficit = self.fill_deficit - n;
    }
}

} // verus!
