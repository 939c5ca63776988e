//! Accounting of compute units spent on hashing and on the phases of verification.
//!
//! A host has no compute-unit counter: the free functions read zero and record nothing. A target
//! that has one keeps the [`Words`] and adds to them the units spent between two readings.

use vstd::prelude::*;

verus! {

/// The reading of the compute-unit counter.
pub fn now() -> (r: u64)
    ensures
        r == 0,
{
    0
}

/// Records a hash that started at the reading `_s`; nothing is kept.
pub fn account(_s: u64, _c: bool) {
}

/// Records a phase that started at the reading `_start`; nothing is kept.
pub fn phase(_slot: usize, _start: u64) {
}

/// The recorded words, which are all zero.
pub fn read() -> (r: [u64; 12])
    ensures
        forall|i: int| 0 <= i < 12 ==> #[trigger] r[i] == 0,
{
    [0;12]
}

/// Clears the recorded words; there are none.
pub fn reset() {
}

/// Three words for hashing (units spent, calls, calls that compress), one that is unused, and
/// one word of units spent for each phase: the shape of the proof, the constraints and
/// interactions, the sum over the interactions, the reduction to stacked columns, WHIR, and, as
/// parts of the second, the sumcheck and the evaluation of the constraints.
pub struct Words {
    pub words: [u64; 12],
}

/// The units spent between the readings `start` and `now` of a counter that counts down.
pub open spec fn spent(start: u64, now: u64) -> int {
    if start >= now {
        start - now
    } else {
        0
    }
}

impl Words {
    pub fn new() -> (r: Self)
        ensures
            r.words@ == Seq::new(12, |i: int| 0u64),
    {
        let r = Words { words: [0;12] };
        assert(r.words@ =~= Seq::new(12, |i: int| 0u64));
        r
    }

    /// Adds a hash that started at the reading `start` and ended at `now`.
    pub fn account(&mut self, start: u64, now: u64, is_compress: bool)
        requires
            old(self).words[0] + spent(start, now) <= u64::MAX,
            old(self).words[1] < u64::MAX,
            is_compress ==> old(self).words[2] < u64::MAX,
        ensures
            final(self).words@ == old(self).words@.update(
                0,
                (old(self).words[0] + spent(start, now)) as u64,
            ).update(1, (old(self).words[1] + 1) as u64).update(
                2,
                (old(self).words[2] + if is_compress { 1int } else { 0int }) as u64,
            ),
    {
        self.words[0] = self.words[0] + start.saturating_sub(now);
        self.words[1] = self.words[1] + 1;
        if is_compress {
            self.words[2] = self.words[2] + 1;
        }
        assert(self.words@ =~= old(self).words@.update(
            0,
            (old(self).words[0] + spent(start, now)) as u64,
        ).update(1, (old(self).words[1] + 1) as u64).update(
            2,
            (old(self).words[2] + if is_compress { 1int } else { 0int }) as u64,
        ));
    }

    /// Adds the units that the phase `slot` spent from the reading `start` to `now`.
    pub fn phase(&mut self, slot: usize, start: u64, now: u64)
        requires
            slot < 8,
            old(self).words[4 + slot] + spent(start, now) <= u64::MAX,
        ensures
            final(self).words@ == old(self).words@.update(
                4 + slot,
                (old(self).words[4 + slot] + spent(start, now)) as u64,
            ),
    {
        self.words[4 + slot] = self.words[4 + slot] + start.saturating_sub(now);
    }

    pub fn read(&self) -> (r: [u64; 12])
        ensures
            r@ == self.words@,
    {
        self.words
    }

    pub fn reset(&mut self)
        ensures
            final(self).words@ == Seq::new(12, |i: int| 0u64),
    {
        self.words = [0;12];
        assert(self.words@ =~= Seq::new(12, |i: int| 0u64));
    }
}

/// The units spent between two readings of a counter that counts down are what it went down by;
/// none are spent where it did not go down; and those of two spans that follow each other add up.
pub proof fn spent_units_add_up(a: u64, b: u64, c: u64)
    ensures
        a >= b ==> b + spent(a, b) == a,
        a <= b ==> spent(a, b) == 0,
        a >= b >= c ==> spent(a, b) + spent(b, c) == spent(a, c),
{
}

} // verus!
