//! Bookkeeping for one running match: seats, time budgets, and failure
//! classification.
//!
//! A match plays the seated agents until the game ends or no seat is left
//! alive.  Talking to the agents' processes is the embedding program's
//! job; everything the match decides — how long a seat may think on a
//! turn, how much budget the turn consumed, whether a response eliminates
//! the seat and which failure is recorded — lives here in [`MatchRunner`].
//! When the match ends, [`MatchRunner::finish`] pairs every seat with its
//! score and hands the consumed resource slice back unchanged.

use crate::agent::Agent;
use crate::constraints::Constraints;
use vstd::prelude::*;

verus! {

/// The per-seat outcome of one match: each agent with its score.
pub type MatchResult = Vec<(Agent, i64)>;

/// What one match should run: the seated agents in order, and the
/// resource slice consumed for its duration.
#[derive(Debug)]
pub struct MatchSettings {
    /// The agents, one per seat, in seat order.
    pub ordered_player: Vec<Agent>,
    /// The resource slice this match consumes; freed when it ends.
    pub resources: Constraints,
}

impl Clone for MatchSettings {
    /// The clone seats the same agents over the same resources.
    fn clone(&self) -> (res: Self)
        ensures
            res.ordered_player@.len() == self.ordered_player@.len(),
            forall|i: int|
                0 <= i < self.ordered_player@.len() ==> crate::agent::clone_of(
                    self.ordered_player@[i],
                    #[trigger] res.ordered_player@[i],
                ),
            res.resources.cpus@ == self.resources.cpus@,
            res.resources.total_ram == self.resources.total_ram,
            res.resources.same_limits(&self.resources),
    {
        let mut players: Vec<Agent> = Vec::new();
        let mut i: usize = 0;
        while i < self.ordered_player.len()
            invariant
                i <= self.ordered_player@.len(),
                players@.len() == i,
                forall|k: int|
                    0 <= k < i ==> crate::agent::clone_of(
                        self.ordered_player@[k],
                        #[trigger] players@[k],
                    ),
            decreases self.ordered_player@.len() - i,
        {
            let cloned_agent = self.ordered_player[i].clone();
            players.push(cloned_agent);
            proof {
                assert(forall|k: int|
                    0 <= k < i ==> #[trigger] players@[k] == players@.drop_last()[k]);
            }
            i += 1;
        }
        MatchSettings { ordered_player: players, resources: self.resources.clone() }
    }
}

/// How a seat failed, when it did.
#[derive(Debug)]
pub enum SeatFailure {
    /// The agent's process could not be started or never connected.
    StartupFailed { seat: usize },
    /// The agent sent an empty response; it probably crashed.
    EmptyResponse { seat: usize, turn: u64 },
    /// The response was not UTF-8 text.
    NonUtf8 { seat: usize, turn: u64 },
    /// The response did not parse as an action of the game.
    NotAnAction { seat: usize, turn: u64, text: String },
    /// No response arrived before the turn's deadline.
    ResponseTimeout { seat: usize, turn: u64, deadline_us: u64 },
    /// The game rejected the action the agent sent.
    ActionRejected { seat: usize, turn: u64, text: String },
}

/// What came back from a seat on its turn, as the embedding program saw
/// it: either `len` bytes that are or are not UTF-8 text parsing or not
/// parsing into an action, or nothing before the deadline.
pub enum TurnResponse {
    Received { len: usize, utf8: bool, parsed: bool, text: String },
    NoResponse,
}

/// The result of a finished match: per-seat scores, the freed resource
/// slice, and the failures that were recorded along the way.
#[derive(Debug)]
pub struct RunnerResult {
    /// One `(agent, score)` entry per seat, in seat order.
    pub results: MatchResult,
    /// The resource slice the match consumed, returned in full.
    pub resources_freed: Constraints,
    /// Every failure recorded during the match.
    pub errors: Vec<SeatFailure>,
}

/// `a - b`, stopping at zero.
pub open spec fn sat_sub_u64(a: u64, b: u64) -> u64 {
    if a >= b {
        (a - b) as u64
    } else {
        0
    }
}

/// The startup failures for a seat-readiness list: one record per seat
/// that did not come up, in seat order.
pub open spec fn startup_errors(ok: Seq<bool>) -> Seq<SeatFailure>
    decreases ok.len(),
{
    if ok.len() == 0 {
        Seq::<SeatFailure>::empty()
    } else if ok.last() {
        startup_errors(ok.drop_last())
    } else {
        startup_errors(ok.drop_last()).push(
            SeatFailure::StartupFailed { seat: (ok.len() - 1) as usize },
        )
    }
}

/// Which failure (if any) a turn response earns a seat.  A missing
/// response is reported only when the deadline reached both the action
/// timeout and a tenth of the time budget: a deadline cut short below
/// either bound means the seat is merely spending the rest of its
/// cumulative budget, which is normal, not an error.
pub open spec fn response_failures(
    seat: usize,
    turn: u64,
    response: TurnResponse,
    deadline_us: u64,
    action_time: u64,
    time_budget: u64,
) -> Seq<SeatFailure> {
    match response {
        TurnResponse::Received { len, utf8, parsed, text } => {
            if parsed {
                Seq::<SeatFailure>::empty()
            } else if !utf8 {
                seq![SeatFailure::NonUtf8 { seat, turn }]
            } else if len == 0 {
                seq![SeatFailure::EmptyResponse { seat, turn }]
            } else {
                seq![SeatFailure::NotAnAction { seat, turn, text }]
            }
        },
        TurnResponse::NoResponse => {
            if deadline_us >= action_time && deadline_us >= time_budget / 10 {
                seq![SeatFailure::ResponseTimeout { seat, turn, deadline_us }]
            } else {
                Seq::<SeatFailure>::empty()
            }
        },
    }
}

/// The live bookkeeping of one match.
pub struct MatchRunner {
    /// The agents, one per seat, in seat order.
    pub players: Vec<Agent>,
    /// The resource slice the match consumed.
    pub resources: Constraints,
    /// Which seats still have a working client.
    pub alive: Vec<bool>,
    /// Remaining thinking time of each seat, in microseconds.
    pub budgets: Vec<u64>,
    /// The failures recorded so far.
    pub errors: Vec<SeatFailure>,
    /// The number of turns begun.
    pub turn: u64,
}

impl MatchRunner {
    /// The seat lists line up, and no seat ever holds more budget than
    /// the match's time budget.
    pub open spec fn wf(&self) -> bool {
        &&& self.alive@.len() == self.players@.len()
        &&& self.budgets@.len() == self.players@.len()
        &&& forall|i: int|
            0 <= i < self.budgets@.len() ==> self.budgets@[i] <= self.resources.time_budget
    }

    /// The agents seated in this match.
    pub open spec fn spec_players(&self) -> Seq<Agent> {
        self.players@
    }

    /// Which seats are still alive.
    pub open spec fn spec_alive(&self) -> Seq<bool> {
        self.alive@
    }

    /// The seats' remaining budgets, in microseconds.
    pub open spec fn spec_budgets(&self) -> Seq<u64> {
        self.budgets@
    }

    /// The failures recorded so far.
    pub open spec fn spec_errors(&self) -> Seq<SeatFailure> {
        self.errors@
    }

    /// The resource slice the match consumed.
    pub open spec fn spec_resources(&self) -> Constraints {
        self.resources
    }

    /// The number of turns begun so far.
    pub open spec fn spec_turn(&self) -> u64 {
        self.turn
    }

    /// The time a seat has consumed: what is gone from its budget.
    pub open spec fn spec_time_spent(&self, seat: int) -> int {
        self.resources.time_budget - self.budgets@[seat]
    }

    /// Seats whose client did not start are recorded as failed right away
    /// and sit the whole match out; every seat starts with the full time
    /// budget.
    pub fn new(settings: MatchSettings, startup_ok: Vec<bool>) -> (r: MatchRunner)
        requires
            startup_ok@.len() == settings.ordered_player@.len(),
        ensures
            r.wf(),
            r.spec_players() == settings.ordered_player@,
            r.spec_resources() == settings.resources,
            r.spec_alive() == startup_ok@,
            r.spec_budgets().len() == settings.ordered_player@.len(),
            forall|i: int|
                0 <= i < r.spec_budgets().len() ==> r.spec_budgets()[i]
                    == settings.resources.time_budget,
            r.spec_errors() == startup_errors(startup_ok@),
            r.spec_turn() == 0,
    {
        let player_count = settings.ordered_player.len();
        let mut budgets: Vec<u64> = Vec::new();
        let mut errors: Vec<SeatFailure> = Vec::new();
        let mut i: usize = 0;
        proof {
            assert(startup_ok@.take(0) =~= Seq::<bool>::empty());
        }
        while i < player_count
            invariant
                i <= player_count,
                player_count == startup_ok@.len(),
                budgets@.len() == i,
                forall|k: int| 0 <= k < i ==> budgets@[k] == settings.resources.time_budget,
                errors@ == startup_errors(startup_ok@.take(i as int)),
            decreases player_count - i,
        {
            budgets.push(settings.resources.time_budget);
            proof {
                assert(startup_ok@.take(i + 1).drop_last() =~= startup_ok@.take(i as int));
                assert(startup_ok@.take(i + 1).last() == startup_ok@[i as int]);
            }
            if !startup_ok[i] {
                errors.push(SeatFailure::StartupFailed { seat: i });
            }
            i += 1;
        }
        proof {
            assert(startup_ok@.take(player_count as int) =~= startup_ok@);
        }
        MatchRunner {
            players: settings.ordered_player,
            resources: settings.resources,
            alive: startup_ok,
            budgets,
            errors,
            turn: 0,
        }
    }

    /// The number of seats.
    pub fn seat_count(&self) -> (n: usize)
        ensures
            n == self.spec_players().len(),
    {
        self.players.len()
    }

    /// Whether the seat still has a working client.
    pub fn is_alive(&self, seat: usize) -> (r: bool)
        requires
            seat < self.spec_alive().len(),
        ensures
            r == self.spec_alive()[seat as int],
    {
        self.alive[seat]
    }

    /// Whether any seat is still alive; the match loop stops when none is.
    pub fn any_alive(&self) -> (r: bool)
        ensures
            r == exists|i: int| 0 <= i < self.spec_alive().len() && self.spec_alive()[i],
    {
        let mut i: usize = 0;
        while i < self.alive.len()
            invariant
                i <= self.alive@.len(),
                forall|k: int| 0 <= k < i ==> !self.alive@[k],
            decreases self.alive@.len() - i,
        {
            if self.alive[i] {
                proof {
                    assert(self.spec_alive()[i as int]);
                }
                return true;
            }
            i += 1;
        }
        false
    }

    /// Starts the next turn.  The turn counter saturates instead of
    /// wrapping; it only labels failure records.
    pub fn begin_turn(&mut self)
        requires
            old(self).wf(),
        ensures
            final(self).wf(),
            final(self).spec_turn() == (if old(self).spec_turn() == u64::MAX {
                u64::MAX as int
            } else {
                old(self).spec_turn() + 1
            }),
            final(self).spec_players() == old(self).spec_players(),
            final(self).spec_alive() == old(self).spec_alive(),
            final(self).spec_budgets() == old(self).spec_budgets(),
            final(self).spec_errors() == old(self).spec_errors(),
            final(self).spec_resources() == old(self).spec_resources(),
    {
        self.turn = self.turn.saturating_add(1);
    }

    /// How long the seat may think on this turn: the per-action timeout,
    /// or what is left of its cumulative budget if that is less.
    pub fn turn_deadline(&self, seat: usize) -> (d: u64)
        requires
            self.wf(),
            seat < self.spec_players().len(),
        ensures
            d == vstd::math::min(
                self.spec_resources().action_time as int,
                self.spec_budgets()[seat as int] as int,
            ),
    {
        let budget = self.budgets[seat];
        if self.resources.action_time <= budget {
            self.resources.action_time
        } else {
            budget
        }
    }

    /// Subtracts the time a turn actually took from the seat's budget,
    /// stopping at zero.  Budgets only ever shrink, so the total time
    /// subtracted over the match stays within the time budget.
    pub fn record_elapsed(&mut self, seat: usize, elapsed_us: u64)
        requires
            old(self).wf(),
            seat < old(self).spec_players().len(),
        ensures
            final(self).wf(),
            final(self).spec_budgets() == old(self).spec_budgets().update(
                seat as int,
                sat_sub_u64(old(self).spec_budgets()[seat as int], elapsed_us),
            ),
            final(self).spec_budgets()[seat as int] <= old(self).spec_budgets()[seat as int],
            final(self).spec_players() == old(self).spec_players(),
            final(self).spec_alive() == old(self).spec_alive(),
            final(self).spec_errors() == old(self).spec_errors(),
            final(self).spec_resources() == old(self).spec_resources(),
            final(self).spec_turn() == old(self).spec_turn(),
    {
        let remaining = self.budgets[seat].saturating_sub(elapsed_us);
        self.budgets.set(seat, remaining);
    }

    /// Classifies what a seat's turn brought back.  A parsed action keeps
    /// the seat alive and is applied to the game; anything else
    /// eliminates the seat, recording the failure that
    /// [`response_failures`] names — in particular a missing response is
    /// only an error when the deadline reached both the action timeout
    /// and a tenth of the time budget, never when the cumulative budget
    /// cut it short.  Returns whether the parsed action should be
    /// applied (else the game is fed "no action").
    pub fn record_response(&mut self, seat: usize, response: TurnResponse, deadline_us: u64) -> (apply: bool)
        requires
            old(self).wf(),
            seat < old(self).spec_players().len(),
            response matches TurnResponse::Received { utf8, parsed, .. } ==> (parsed ==> utf8),
        ensures
            final(self).wf(),
            apply == (response matches TurnResponse::Received { parsed: true, .. }),
            final(self).spec_alive() == (if apply {
                old(self).spec_alive()
            } else {
                old(self).spec_alive().update(seat as int, false)
            }),
            final(self).spec_errors() == old(self).spec_errors() + response_failures(
                seat,
                old(self).spec_turn(),
                response,
                deadline_us,
                old(self).spec_resources().action_time,
                old(self).spec_resources().time_budget,
            ),
            final(self).spec_players() == old(self).spec_players(),
            final(self).spec_budgets() == old(self).spec_budgets(),
            final(self).spec_resources() == old(self).spec_resources(),
            final(self).spec_turn() == old(self).spec_turn(),
    {
        let ghost expected = response_failures(
            seat,
            self.turn,
            response,
            deadline_us,
            self.resources.action_time,
            self.resources.time_budget,
        );
        match response {
            TurnResponse::Received { len, utf8, parsed, text } => {
                if parsed {
                    proof {
                        assert(self.errors@ + expected =~= self.errors@);
                    }
                    true
                } else {
                    if !utf8 {
                        self.errors.push(SeatFailure::NonUtf8 { seat, turn: self.turn });
                    } else if len == 0 {
                        self.errors.push(SeatFailure::EmptyResponse { seat, turn: self.turn });
                    } else {
                        self.errors.push(
                            SeatFailure::NotAnAction { seat, turn: self.turn, text },
                        );
                    }
                    self.alive.set(seat, false);
                    proof {
                        assert(self.errors@ =~= old(self).errors@ + expected);
                    }
                    false
                }
            },
            TurnResponse::NoResponse => {
                if deadline_us >= self.resources.action_time && deadline_us
                    >= self.resources.time_budget / 10 {
                    self.errors.push(
                        SeatFailure::ResponseTimeout { seat, turn: self.turn, deadline_us },
                    );
                }
                self.alive.set(seat, false);
                proof {
                    assert(self.errors@ =~= old(self).errors@ + expected);
                }
                false
            },
        }
    }

    /// Records that the game rejected the action a seat sent: the seat is
    /// eliminated and the rejection recorded.
    pub fn record_rejection(&mut self, seat: usize, text: String)
        requires
            old(self).wf(),
            seat < old(self).spec_players().len(),
        ensures
            final(self).wf(),
            final(self).spec_alive() == old(self).spec_alive().update(seat as int, false),
            final(self).spec_errors() == old(self).spec_errors().push(
                SeatFailure::ActionRejected { seat, turn: old(self).spec_turn(), text },
            ),
            final(self).spec_players() == old(self).spec_players(),
            final(self).spec_budgets() == old(self).spec_budgets(),
            final(self).spec_resources() == old(self).spec_resources(),
            final(self).spec_turn() == old(self).spec_turn(),
    {
        self.errors.push(SeatFailure::ActionRejected { seat, turn: self.turn, text });
        self.alive.set(seat, false);
    }

    /// Closes the match: pairs every seat's agent with its score, in seat
    /// order, and frees exactly the resource slice the match consumed.
    pub fn finish(self, scores: Vec<i64>) -> (r: RunnerResult)
        requires
            scores@.len() == self.spec_players().len(),
        ensures
            r.resources_freed == self.spec_resources(),
            r.errors@ == self.spec_errors(),
            r.results@.len() == self.spec_players().len(),
            forall|i: int|
                0 <= i < r.results@.len() ==> r.results@[i].0 == self.spec_players()[i]
                    && r.results@[i].1 == scores@[i],
    {
        let MatchRunner { mut players, resources, alive: _, budgets: _, errors, turn: _ } = self;
        let ghost all_players = players@;
        let mut results: MatchResult = Vec::new();
        let mut i: usize = 0;
        let total = players.len();
        while i < total
            invariant
                i <= total,
                total == all_players.len(),
                scores@.len() == all_players.len(),
                players@ == all_players.skip(i as int),
                results@.len() == i,
                forall|k: int|
                    0 <= k < i ==> results@[k].0 == all_players[k] && results@[k].1 == scores@[k],
            decreases total - i,
        {
            let agent = players.remove(0);
            proof {
                assert(all_players.skip(i as int)[0] == all_players[i as int]);
                assert(all_players.skip(i as int).subrange(
                    1,
                    all_players.skip(i as int).len() as int,
                ) =~= all_players.skip(i + 1));
            }
            results.push((agent, scores[i]));
            proof {
                assert(forall|k: int|
                    0 <= k < i ==> #[trigger] results@[k] == results@.drop_last()[k]);
            }
            i += 1;
        }
        RunnerResult { results, resources_freed: resources, errors }
    }
}

/// Law: budget monotonicity.  The cumulative thinking time subtracted
/// from a seat across all its turns never exceeds the match's time
/// budget: budgets start at the budget, only shrink, and stop at zero.
pub proof fn lemma_budget_monotonicity(r: MatchRunner, seat: int)
    requires
        r.wf(),
        0 <= seat < r.spec_budgets().len(),
    ensures
        0 <= r.spec_time_spent(seat) <= r.spec_resources().time_budget,
{
}

} // verus!
