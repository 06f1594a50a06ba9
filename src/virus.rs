//! The parameters of a pathogen.
use vstd::prelude::*;

verus! {

/// Probabilities are counted in parts of this many: `PROBABILITY_SCALE` is 1.
pub const PROBABILITY_SCALE: u32 = 1_000_000;

/// An immutable description of a pathogen.
#[derive(Clone, Copy, Debug, PartialEq, Eq, Structural)]
pub struct Virus {
    /// Agents closer than this (strictly) can pass the virus on.
    pub distance: u32,
    /// Ticks an agent stays infectious before it may recover.
    pub recovery_time: u64,
    /// Chance of catching the virus on a contact, in parts per million.
    pub infection_rate: u32,
    /// Chance that recovery ends in death, in parts per million.
    pub mortality_rate: u32,
}

impl Virus {
    /// A virus is well formed when its radius is positive and its rates are
    /// probabilities.
    pub open spec fn wf(self) -> bool {
        &&& self.distance > 0
        &&& self.infection_rate <= PROBABILITY_SCALE
        &&& self.mortality_rate <= PROBABILITY_SCALE
    }

    /// Whether this description is well formed.
    pub fn is_valid(&self) -> (r: bool)
        ensures
            r == self.wf(),
    {
        self.distance > 0 && self.infection_rate <= PROBABILITY_SCALE && self.mortality_rate
            <= PROBABILITY_SCALE
    }

    /// A coronavirus-like pathogen: radius 10, recovery after 100 ticks,
    /// infection chance 0.7 and mortality 0.05.
    pub fn corona() -> (v: Virus)
        ensures
            v == (Virus {
                distance: 10,
                recovery_time: 100,
                infection_rate: 700_000,
                mortality_rate: 50_000,
            }),
            v.wf(),
    {
        Virus { distance: 10, recovery_time: 100, infection_rate: 700_000, mortality_rate: 50_000 }
    }
}

} // verus!
