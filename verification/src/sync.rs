//! The window of blocks that a scan for events asks for next.
//!
//! A scan follows the chain from a start block. While it is more than `n`
//! blocks behind, it asks for `n` blocks at a time; once it has caught up, it
//! asks for what is left up to its current end, waits, and moves that end to
//! the chain's head less a safety gap.

use vstd::prelude::*;

verus! {

/// The number of blocks that one request covers while the scan is behind.
pub const WINDOW_BLOCKS: u64 = 50000;

/// The number of blocks that the scan stays behind the head of the chain.
pub const HEAD_GAP: u64 = 3;

/// An inclusive range of block numbers, as a log filter takes it.
#[derive(Clone, Copy, PartialEq, Eq, Debug)]
pub struct BlockRange {
    pub from_block: u64,
    pub to_block: u64,
}

/// The state of a scan.
#[derive(Clone, Copy, Debug)]
pub struct SyncData {
    /// The last block that the scan may ask for at present.
    pub cur: u64,
    /// The first block that has not been asked for yet.
    pub from: u64,
    /// The largest number of blocks in one request while behind.
    pub n: u64,
    /// The range of the request that is due.
    pub filters: BlockRange,
    /// The distance kept from the head of the chain.
    pub gap: u64,
}

/// What the caller has to do after a window has been chosen.
#[derive(Clone, Copy, PartialEq, Eq, Debug)]
pub enum FetchAction {
    /// The scan is behind: fetch the logs of `filters`; the scan has then
    /// reached block `number`.
    Scan { number: u64 },
    /// The scan has caught up: wait, read the head of the chain, report it
    /// with `head_seen`, and fetch the logs of `filters`.
    WaitForHead,
}

impl SyncData {
    /// Whether the scan is more than one window behind its current end.
    pub open spec fn behind(self) -> bool {
        self.cur - self.from > self.n
    }

    /// The last block of the window that is due.
    pub open spec fn limit(self) -> int {
        if self.behind() {
            self.from + self.n - 1
        } else {
            self.cur as int
        }
    }

    /// A scan from block `from` on a chain whose head is `head`.
    pub fn new_sync(head: u64, from: u64) -> (sync: Self)
        requires
            head >= HEAD_GAP,
        ensures
            sync.cur == head - HEAD_GAP,
            sync.from == from,
            sync.n == WINDOW_BLOCKS,
            sync.gap == HEAD_GAP,
            sync.filters == (BlockRange { from_block: from, to_block: sync.cur }),
    {
        let cur = head - HEAD_GAP;
        SyncData {
            cur,
            from,
            filters: BlockRange { from_block: from, to_block: cur },
            n: WINDOW_BLOCKS,
            gap: HEAD_GAP,
        }
    }

    /// Chooses the window that is due and says what to do about it.
    ///
    /// The window starts at `from`. While the scan is behind it holds `n`
    /// blocks, and `from` moves to the block after it. Otherwise it ends at
    /// `cur`, `from` moves to `cur`, and the caller is asked for the head.
    pub fn begin_fetch(&mut self) -> (action: FetchAction)
        requires
            old(self).from <= old(self).cur,
            old(self).behind() ==> old(self).from + old(self).n >= 1,
        ensures
            final(self).cur == old(self).cur,
            final(self).n == old(self).n,
            final(self).gap == old(self).gap,
            final(self).filters == (BlockRange {
                from_block: old(self).from,
                to_block: old(self).limit() as u64,
            }),
            old(self).from <= old(self).limit() + 1 <= old(self).cur + 1,
            old(self).behind() ==> final(self).from == old(self).limit() + 1 && action == (
            FetchAction::Scan { number: final(self).from }),
            !old(self).behind() ==> final(self).from == old(self).cur && action
                == FetchAction::WaitForHead,
    {
        let behind = self.cur - self.from > self.n;
        let limit: u64 = if behind {
            self.from + self.n - 1
        } else {
            self.cur
        };
        self.filters = BlockRange { from_block: self.from, to_block: limit };
        if behind {
            self.from = limit + 1;
            FetchAction::Scan { number: limit + 1 }
        } else {
            self.from = limit;
            FetchAction::WaitForHead
        }
    }

    /// Takes note of the head of the chain after a wait: the scan may now go
    /// on up to `gap` blocks below it. Returns that block.
    pub fn head_seen(&mut self, head: u64) -> (number: u64)
        requires
            head >= old(self).gap,
        ensures
            number == head - old(self).gap,
            final(self).cur == number,
            final(self).from == old(self).from,
            final(self).n == old(self).n,
            final(self).gap == old(self).gap,
            final(self).filters == old(self).filters,
    {
        let number = head - self.gap;
        self.cur = number;
        number
    }
}

} // verus!
