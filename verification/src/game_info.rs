//! Static facts about a game that tournaments may consult.

use vstd::prelude::*;

verus! {

/// Whether a game plays out the same way every time for the same actions.
#[derive(PartialEq, Eq, Structural, Debug, Clone, Copy)]
pub enum Deterministicness {
    Deterministic,
    NonDeterministic,
}

/// Sequential: one player after the other (chess).
/// Simultaneous: everyone plays at the same time (rock-paper-scissors).
#[derive(PartialEq, Eq, Structural, Debug, Clone, Copy)]
pub enum Sequentialness {
    Sequential,
    Simultaneous,
}

/// Whether every player can see the whole game state.
#[derive(PartialEq, Eq, Structural, Debug, Clone, Copy)]
pub enum Information {
    PerfectInformation,
    PartialInformation,
}

/// Summary of a game's shape: how many seats it has and how turns work.
#[derive(PartialEq, Eq, Structural, Debug, Clone, Copy)]
pub struct GameInfo {
    pub num_player: u32,
    pub deterministicness: Deterministicness,
    pub sequentialness: Sequentialness,
    pub information: Information,
}

} // verus!
