//! Tank state that belongs to the verified core: hit points.

use vstd::prelude::*;

verus! {

/// Hit points of a tank.  A tank is invincible while it is still being
/// placed at the start of a round.
#[derive(Debug, Clone, Copy, PartialEq, Eq, Structural)]
pub struct Health {
    /// Remaining hit points.
    pub value: u8,
    /// Damage is ignored while this holds.
    pub invincible: bool,
}

impl Health {
    /// Applies `v` points of damage, saturating at zero, unless the tank
    /// is invincible; returns the health left afterwards.
    pub fn damage(&mut self, v: u8) -> (r: u8)
        ensures
            final(self).invincible == old(self).invincible,
            old(self).invincible ==> final(self).value == old(self).value,
            !old(self).invincible ==> final(self).value == (if old(self).value >= v {
                (old(self).value - v) as u8
            } else {
                0u8
            }),
            r == final(self).value,
    {
        if !self.invincible {
            self.value = if self.value >= v {
                self.value - v
            } else {
                0
            };
        }
        self.value
    }
}

} // verus!
