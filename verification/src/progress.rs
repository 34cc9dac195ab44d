//! The share of an input that a conversion has consumed, in whole percent.

use vstd::arithmetic::div_mod::lemma_div_is_ordered;
use vstd::prelude::*;

verus! {

/// The whole percent of `total` that `consumed` comes to, rounded down and at
/// most 100. A total of zero counts as one.
pub open spec fn percent_of(consumed: nat, total: nat) -> nat {
    let whole: nat = if total == 0 {
        1
    } else {
        total
    };
    if 100 * consumed / whole >= 100 {
        100
    } else {
        100 * consumed / whole
    }
}

/// The percentage does not fall when more is consumed.
pub proof fn lemma_percent_monotonic(less: nat, more: nat, total: nat)
    requires
        less <= more,
    ensures
        percent_of(less, total) <= percent_of(more, total) <= 100,
{
    let whole: int = if total == 0 {
        1
    } else {
        total as int
    };
    lemma_div_is_ordered(100 * less as int, 100 * more as int, whole);
}

/// The running account of a conversion: the length of the input and the
/// number of its bytes consumed so far.
pub struct Progress {
    total: u64,
    consumed: u64,
}

impl Progress {
    /// The length of the input.
    pub closed spec fn total(self) -> nat {
        self.total as nat
    }

    /// The number of bytes consumed so far.
    pub closed spec fn consumed(self) -> nat {
        self.consumed as nat
    }

    /// The percentage reached.
    pub open spec fn percent(self) -> nat {
        percent_of(self.consumed(), self.total())
    }

    /// Starts the account of an input of `total` bytes, with nothing consumed.
    pub fn new(total: u64) -> (progress: Progress)
        ensures
            progress.total() == total,
            progress.consumed() == 0,
    {
        Progress { total, consumed: 0 }
    }

    /// The percentage reached.
    pub fn percentage(&self) -> (percentage: u8)
        ensures
            percentage == self.percent(),
    {
        let whole: u128 = if self.total == 0 {
            1
        } else {
            self.total as u128
        };
        let reached: u128 = 100 * (self.consumed as u128) / whole;
        if reached >= 100 {
            100
        } else {
            reached as u8
        }
    }

    /// Counts `bytes` more bytes as consumed and returns the percentage
    /// reached if it differs from the one before: the percentage to report.
    /// The count stops at the largest number of 64 bits.
    pub fn advance(&mut self, bytes: u64) -> (report: Option<u8>)
        ensures
            final(self).total() == old(self).total(),
            final(self).consumed() == if old(self).consumed() + bytes > u64::MAX {
                u64::MAX as int
            } else {
                old(self).consumed() + bytes
            },
            report == if final(self).percent() != old(self).percent() {
                Some(final(self).percent() as u8)
            } else {
                None
            },
            report matches Some(percentage) ==> old(self).percent() < percentage <= 100,
    {
        let before: u8 = self.percentage();
        self.consumed = self.consumed.saturating_add(bytes);
        let after: u8 = self.percentage();
        proof {
            lemma_percent_monotonic(old(self).consumed(), self.consumed(), self.total());
        }
        if after != before {
            Some(after)
        } else {
            None
        }
    }
}

/// The number of bytes in `lines`.
pub open spec fn consumed_by(lines: Seq<Seq<u8>>) -> nat
    decreases lines.len(),
{
    if lines.len() == 0 {
        0
    } else {
        consumed_by(lines.drop_last()) + lines.last().len()
    }
}

/// The percentages reported while `lines` are consumed one after the other
/// out of an input of `total` bytes: after each line the percentage reached,
/// where it differs from the one before that line.
pub open spec fn progress_marks(lines: Seq<Seq<u8>>, total: nat) -> Seq<u8>
    decreases lines.len(),
{
    if lines.len() == 0 {
        Seq::empty()
    } else {
        let earlier = progress_marks(lines.drop_last(), total);
        let before = percent_of(consumed_by(lines.drop_last()), total);
        let after = percent_of(consumed_by(lines), total);
        if after != before {
            earlier.push(after as u8)
        } else {
            earlier
        }
    }
}

} // verus!
