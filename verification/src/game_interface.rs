//! The capability traits a user-supplied game implements.
//!
//! The evaluator is parametric over a [`Game`]: it drives the game loop,
//! feeds states to the seated agents and their answers back, and collects
//! per-player scores when the game ends.  These traits are the boundary
//! to user code, so they carry no contracts; the match bookkeeping that
//! the library verifies takes their results as plain values.

use vstd::prelude::*;

verus! {

/// What a game must offer to be run by the evaluator.
pub trait Game: Sized {
    /// What is sent to the current player each turn.
    type State;

    /// What a player answers with.
    type Action;

    /// Applies an optional action.  `None` stands for a player that could
    /// not answer; the game is responsible for eliminating that player
    /// and must still advance the current-player number.  An error means
    /// the action was rejected.
    fn apply_action(&mut self, action: &Option<Self::Action>) -> Result<(), String>;

    /// The state handed to the current player.
    fn get_state(&self) -> Self::State;

    /// The seat that should play now.
    fn get_current_player_number(&self) -> usize;

    /// True when the game is over.
    fn is_finished(&self) -> bool;

    /// The score of a seat, collected when the game ends.
    fn get_player_score(&self, player_number: u32) -> i64;
}

/// What an in-process agent would implement; kept for users that drive
/// games without spawning processes.
pub trait Agent<G: Game>: Sized {
    /// Called once before the first turn.
    fn init(&mut self);

    /// Picks an action for a state, before the deadline (microseconds
    /// of thinking time granted).
    fn select_action(&mut self, state: G::State, deadline_us: u64) -> G::Action;
}

/// Hands the evaluator a fresh game per match.
pub trait GameFactory<G: Game>: Sized {
    /// Returns an initialized game.
    fn new_game(&self) -> G;
}

} // verus!
