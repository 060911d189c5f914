//! The resettable iteration protocol shared by every enumerator: test,
//! read, advance, and return to the start.  Each implementor carries its
//! own consistency invariant and progress measure; the concrete types'
//! inherent methods state the exact contracts.

use crate::ops::bruterange::BruteRangeIter;
use crate::ops::mbruterange::MBruteRangeIter;
use crate::ops::pattern::iter::{ipos, isize, iwf, PatternIter};
use vstd::prelude::*;

verus! {

/// A finite, resettable cursor: `has_next` is non-mutating, `peek` reads
/// without side effects, `move_next` consumes exactly one production, and
/// `reset` returns the cursor to its first production.
pub trait ResetIter {
    type Item;

    /// The cursor's consistency invariant.
    spec fn inv(&self) -> bool;

    /// How many productions the cursor has consumed.
    spec fn pos(&self) -> int;

    /// How many productions the cursor has in total.
    spec fn total(&self) -> int;

    fn has_next(&self) -> (r: bool)
        requires
            self.inv(),
        ensures
            r == (self.pos() < self.total()),
    ;

    fn move_next(&mut self)
        requires
            old(self).inv(),
            old(self).pos() < old(self).total(),
        ensures
            final(self).inv(),
            final(self).total() == old(self).total(),
            final(self).pos() == old(self).pos() + 1,
    ;

    fn peek(&self) -> (r: Self::Item)
        requires
            self.inv(),
            self.pos() < self.total(),
    ;

    fn get_next(&mut self) -> (r: Self::Item)
        requires
            old(self).inv(),
            old(self).pos() < old(self).total(),
        ensures
            final(self).inv(),
            final(self).total() == old(self).total(),
            final(self).pos() == old(self).pos() + 1,
    ;

    fn reset(&mut self)
        requires
            old(self).inv(),
        ensures
            final(self).inv(),
            final(self).total() == old(self).total(),
            final(self).pos() == 0,
    ;
}

impl ResetIter for BruteRangeIter {
    type Item = char;

    open spec fn inv(&self) -> bool {
        self.wf()
    }

    open spec fn pos(&self) -> int {
        BruteRangeIter::pos(*self)
    }

    open spec fn total(&self) -> int {
        self.range().spec_len()
    }

    fn has_next(&self) -> (r: bool) {
        BruteRangeIter::has_next(self)
    }

    fn move_next(&mut self) {
        BruteRangeIter::move_next(self);
    }

    fn peek(&self) -> (r: char) {
        BruteRangeIter::peek(self)
    }

    fn get_next(&mut self) -> (r: char) {
        BruteRangeIter::get_next(self)
    }

    fn reset(&mut self) {
        BruteRangeIter::reset(self);
    }
}

impl ResetIter for MBruteRangeIter {
    type Item = char;

    open spec fn inv(&self) -> bool {
        self.wf()
    }

    open spec fn pos(&self) -> int {
        MBruteRangeIter::pos(*self)
    }

    open spec fn total(&self) -> int {
        MBruteRangeIter::total(*self)
    }

    fn has_next(&self) -> (r: bool) {
        MBruteRangeIter::has_next(self)
    }

    fn move_next(&mut self) {
        MBruteRangeIter::move_next(self);
    }

    fn peek(&self) -> (r: char) {
        MBruteRangeIter::peek(self)
    }

    fn get_next(&mut self) -> (r: char) {
        MBruteRangeIter::get_next(self)
    }

    fn reset(&mut self) {
        MBruteRangeIter::reset(self);
    }
}

impl ResetIter for PatternIter {
    type Item = String;

    open spec fn inv(&self) -> bool {
        iwf(*self)
    }

    open spec fn pos(&self) -> int {
        ipos(*self)
    }

    open spec fn total(&self) -> int {
        isize(*self)
    }

    fn has_next(&self) -> (r: bool) {
        PatternIter::has_next(self)
    }

    fn move_next(&mut self) {
        let ghost before = *self;
        PatternIter::move_next(self);
        proof {
            crate::ops::pattern::iter::lemma_reset_replays(*self, before, 0);
        }
    }

    fn peek(&self) -> (r: String) {
        PatternIter::peek(self)
    }

    fn get_next(&mut self) -> (r: String) {
        let ghost before = *self;
        let r = PatternIter::get_next(self);
        proof {
            crate::ops::pattern::iter::lemma_reset_replays(*self, before, 0);
        }
        r
    }

    fn reset(&mut self) {
        let ghost before = *self;
        PatternIter::reset(self);
        proof {
            crate::ops::pattern::iter::lemma_reset_replays(*self, before, 0);
        }
    }
}

} // verus!
