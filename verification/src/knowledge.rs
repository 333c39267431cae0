//! Run-persistent knowledge about the security system: how much the player
//! has learned, held between nothing and a cap.

use vstd::prelude::*;
use crate::noise_meter::clamp_int;

verus! {

#[derive(Debug, Clone, Copy, PartialEq, Eq)]
pub struct Knowledge {
    level: i32,
    max_level: i32,
}

impl Knowledge {
    #[verifier::type_invariant]
    spec fn knowledge_invariant(self) -> bool {
        0 <= self.level <= self.max_level
    }

    pub closed spec fn spec_level(&self) -> int {
        self.level as int
    }

    pub closed spec fn spec_max_level(&self) -> int {
        self.max_level as int
    }

    /// Knowledge starting at one piece, capped at `max_level`; a negative cap
    /// counts as none, and a cap of zero starts at zero.
    pub fn new(max_level: i32) -> (knowledge: Self)
        ensures
            knowledge.spec_max_level() == if max_level < 0 { 0 } else { max_level as int },
            knowledge.spec_level() == clamp_int(1, 0, knowledge.spec_max_level()),
    {
        let max_level = if max_level < 0 { 0 } else { max_level };
        let level = if max_level < 1 { max_level } else { 1 };
        Knowledge { level, max_level }
    }

    pub fn level(&self) -> (level: i32)
        ensures
            level == self.spec_level(),
            0 <= level <= self.spec_max_level(),
    {
        proof { use_type_invariant(self); }
        self.level
    }

    pub fn max_level(&self) -> (max_level: i32)
        ensures
            max_level == self.spec_max_level(),
            0 <= max_level,
    {
        proof { use_type_invariant(self); }
        self.max_level
    }

    /// Moves the level by `amount`, held within `0..=max_level`, and reports
    /// how far it actually moved.
    pub fn add(&mut self, amount: i32) -> (change: i32)
        ensures
            final(self).spec_max_level() == old(self).spec_max_level(),
            final(self).spec_level() == clamp_int(old(self).spec_level() + amount, 0, old(self).spec_max_level()),
            change == final(self).spec_level() - old(self).spec_level(),
    {
        proof { use_type_invariant(&*self); }
        let before = self.level;
        let raised: i64 = before as i64 + amount as i64;
        let level: i32 = if raised < 0 {
            0
        } else if raised > self.max_level as i64 {
            self.max_level
        } else {
            raised as i32
        };
        self.level = level;
        level - before
    }
}

} // verus!
