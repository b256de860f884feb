//! The elimination resolver.
//!
//! One draw picks a chamber uniformly from `1..=chambers`; the chambers
//! `1..=loaded` count as loaded, so the probability of elimination is
//! `loaded / chambers`. Every call is an independent trial with no memory
//! of earlier draws.

use vstd::prelude::*;
use rand::Rng;
use rand::thread_rng;

verus! {

/// The outcome of one elimination draw.
#[derive(Debug, Clone, Copy, PartialEq, Eq, Structural)]
pub enum RouletteResult {
    /// The drawn chamber was empty.
    Safe,
    /// The drawn chamber was loaded: the target is eliminated.
    Out,
}

/// The elimination-probability parameters: how many chambers the cylinder
/// has, and how many of them are loaded.
#[derive(Debug, Clone, Copy, PartialEq, Eq, Structural)]
pub struct RouletteConfig {
    pub chambers: u8,
    pub loaded_bullets: u8,
}

impl RouletteConfig {
    /// A well-formed configuration can actually be drawn from, and never
    /// claims more loaded chambers than the cylinder holds.
    pub open spec fn wf(self) -> bool {
        1 <= self.chambers && self.loaded_bullets <= self.chambers
    }

    /// The standard six-chamber cylinder with the given number of loaded
    /// bullets.
    pub fn new(bullet_count: u8) -> (r: RouletteConfig)
        ensures
            r == (RouletteConfig { chambers: 6, loaded_bullets: bullet_count }),
    {
        RouletteConfig { chambers: 6, loaded_bullets: bullet_count }
    }

    /// Draws one outcome. The deterministic ends are pinned down: a fully
    /// loaded cylinder always eliminates, an empty one never does.
    pub fn spin(&self) -> (r: RouletteResult)
        requires
            self.chambers >= 1,
        ensures
            self.loaded_bullets >= self.chambers ==> r == RouletteResult::Out,
            self.loaded_bullets == 0 ==> r == RouletteResult::Safe,
    {
        let chamber = draw_chamber(self.chambers);
        chamber_outcome(chamber, self.loaded_bullets)
    }
}

impl Default for RouletteConfig {
    /// Six chambers, one bullet.
    fn default() -> (r: RouletteConfig)
        ensures
            r == (RouletteConfig { chambers: 6, loaded_bullets: 1 }),
    {
        RouletteConfig { chambers: 6, loaded_bullets: 1 }
    }
}

/// Relies on rand's `Rng::gen_range` over `1..=capacity` with the thread
/// rng: a draw somewhere in that inclusive range. Nothing more is assumed
/// of the randomness, so callers must hold for every possible draw.
#[verifier::external_body]
fn draw_chamber(capacity: u8) -> (r: u8)
    requires
        capacity >= 1,
    ensures
        1 <= r <= capacity,
{
    let mut rng = thread_rng();
    rng.gen_range(1..=capacity)
}

/// Decides a draw: the chambers `1..=loaded` are the loaded ones.
pub fn chamber_outcome(chamber: u8, loaded: u8) -> (r: RouletteResult)
    ensures
        r == (if chamber <= loaded {
            RouletteResult::Out
        } else {
            RouletteResult::Safe
        }),
{
    if chamber <= loaded {
        RouletteResult::Out
    } else {
        RouletteResult::Safe
    }
}

/// Draws one outcome with a single loaded chamber among `bullet_capacity`:
/// elimination probability `1/bullet_capacity`, independent per call.
/// A capacity of one is deterministic elimination.
pub fn execute_roulette(bullet_capacity: u8) -> (r: RouletteResult)
    requires
        bullet_capacity >= 1,
    ensures
        bullet_capacity == 1 ==> r == RouletteResult::Out,
{
    let chamber = draw_chamber(bullet_capacity);
    chamber_outcome(chamber, 1)
}

} // verus!
