use vstd::prelude::*;

verus! {

/// Up to this bounce every path survives Russian roulette.
pub const MIN_DEPTH: u32 = 6;

/// After this bounce the survival probability halves at every bounce.
pub const MAX_DEPTH: u32 = 30;

/// The survival probability of Russian roulette at one bounce.
#[derive(PartialEq, Eq, Structural, Clone, Copy, Debug)]
pub enum Survival {
    /// The path survives with probability one.
    Certain,
    /// The path survives with its base probability (one at a light, the
    /// largest channel of the surface color elsewhere) divided by two to this
    /// power.
    Halved(u32),
}

/// The Russian roulette rule at bounce `time`.
pub fn roulette_rule(time: u32) -> (r: Survival)
    ensures
        time <= MIN_DEPTH ==> r == Survival::Certain,
        MIN_DEPTH < time <= MAX_DEPTH ==> r == Survival::Halved(0),
        time > MAX_DEPTH ==> r == Survival::Halved((time - MAX_DEPTH) as u32),
{
    if time > MAX_DEPTH {
        Survival::Halved(time - MAX_DEPTH)
    } else if time <= MIN_DEPTH {
        Survival::Certain
    } else {
        Survival::Halved(0)
    }
}

} // verus!
