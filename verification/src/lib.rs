//! Evaluation of AI agents through resource-constrained tournaments.
//!
//! The crate pairs agents up according to a tournament strategy (Swiss,
//! round-robin, or independent single-player games), schedules the resulting
//! matches over a finite pool of CPUs and RAM, and tracks per-seat time
//! budgets and failure classification while a match runs.  The data
//! structures and the rules that drive scheduling and scoring live here,
//! each with a contract; process launching, sockets and the file system are
//! left to the embedding program.

pub mod agent;
pub mod configuration;
pub mod constraints;
pub mod game_info;
pub mod game_interface;
pub mod match_runner;
pub mod parse;
pub mod supervisor;
pub mod tournament_scheduler;
pub mod tournament_strategy;

pub use configuration::Configuration;
pub use constraints::Constraints;
pub use constraints::ConstraintsBuilder;
pub use game_info::Deterministicness;
pub use game_info::GameInfo;
pub use game_info::Information;
pub use game_info::Sequentialness;
pub use game_interface::Game;
pub use game_interface::GameFactory;
pub use match_runner::MatchResult;
pub use match_runner::MatchRunner;
pub use match_runner::MatchSettings;
pub use match_runner::RunnerResult;
pub use tournament_scheduler::TournamentScheduler;
pub use tournament_strategy::RoundRobinTournament;
pub use tournament_strategy::SinglePlayerScore;
pub use tournament_strategy::SinglePlayerTournament;
pub use tournament_strategy::SwissTournament;
pub use tournament_strategy::TournamentStrategy;
pub use tournament_strategy::TwoPlayersGameScore;
