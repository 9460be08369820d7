//! Tournament strategies: who plays whom next, and how results add up.
//!
//! A strategy receives the roster once through `add_agents`, then is asked
//! round by round for the next pairings through `advance_round`, which also
//! consumes the results of the previous round.  An empty answer means the
//! tournament is over; `get_final_scores` then gives every agent's final
//! score.  Three strategies are provided: [`RoundRobinTournament`] (every
//! agent meets every other), [`SwissTournament`] (score-based pairings with
//! byes and a median tie-breaker), and [`SinglePlayerTournament`] (each
//! agent plays alone a fixed number of times).

use crate::agent::clone_of;
use crate::agent::distinct_ids;
use crate::agent::from_roster;
use crate::agent::Agent;
use crate::match_runner::MatchResult;
use vstd::prelude::*;

verus! {

/// The ids of a roster, in roster order.
pub open spec fn ids_of(agents: Seq<Agent>) -> Seq<u32> {
    agents.map_values(|a: Agent| a.id)
}

/// Whether some agent of the roster carries this id.
pub open spec fn roster_has_id(roster: Seq<Agent>, id: u32) -> bool {
    exists|t: int| 0 <= t < roster.len() && (#[trigger] roster[t]).id == id
}

/// How agents are grouped, matched and scored in a tournament.
///
/// `add_agents` hands the roster over once; `advance_round` consumes the
/// results gathered since its last call and answers with the pairings to
/// run next — an empty answer ends the tournament.  Every pairing seats
/// exactly `players_per_match()` agents.
pub trait TournamentStrategy: Sized {
    /// The score type produced at the end of the tournament.
    type FinalScore;

    /// The number of players every emitted pairing seats.
    spec fn spec_players_per_match(&self) -> int;

    /// The strategy's internal well-formedness.
    spec fn inv(&self) -> bool;

    /// What the strategy asks of each match result handed to it.
    spec fn result_wf(&self, r: Seq<(Agent, i64)>) -> bool;

    /// How one `advance_round` call relates the state it started from,
    /// the results it consumed, the state it left behind, and the round
    /// it emitted.  Each strategy defines this as its exact round
    /// semantics; `advance_round` is bound to it below, so a caller that
    /// knows the strategy knows the round.
    spec fn round_relation(&self, results: Seq<MatchResult>, next: Self, round: Seq<Vec<Agent>>) -> bool;

    /// Hands the roster over.  Agent ids must be distinct: an agent never
    /// plays itself, and scores are kept per id.
    fn add_agents(&mut self, agents: Vec<Agent>)
        requires
            old(self).inv(),
            distinct_ids(agents@),
        ensures
            final(self).inv(),
            final(self).spec_players_per_match() == old(self).spec_players_per_match(),
    ;

    /// Consumes the previous round's results and answers with the next
    /// round's pairings; an empty answer means the tournament is over.
    fn advance_round(&mut self, results: Vec<MatchResult>) -> (pending: Vec<Vec<Agent>>)
        requires
            old(self).inv(),
            forall|i: int|
                0 <= i < results@.len() ==> old(self).result_wf((#[trigger] results@[i])@),
        ensures
            final(self).inv(),
            final(self).spec_players_per_match() == old(self).spec_players_per_match(),
            forall|i: int|
                0 <= i < pending@.len() ==> (#[trigger] pending@[i])@.len() == old(
                    self,
                ).spec_players_per_match(),
            forall|r: Seq<(Agent, i64)>|
                final(self).result_wf(r) == #[trigger] old(self).result_wf(r),
            old(self).round_relation(results@, *final(self), pending@),
    ;

    /// The number of players per match required by this strategy; equals
    /// the length of every sub-list `advance_round` returns.
    fn players_per_match(&self) -> (n: usize)
        ensures
            n as int == self.spec_players_per_match(),
    ;

    /// What the strategy's final-score table holds; each implementation
    /// defines this as its exact table, and `get_final_scores` is bound
    /// to it, so a forwarder owes it too.
    spec fn final_scores_relation(&self, scores: Seq<(Agent, Self::FinalScore)>) -> bool;

    /// The final scores, one entry per agent.
    fn get_final_scores(&self) -> (scores: Vec<(Agent, Self::FinalScore)>)
        requires
            self.inv(),
        ensures
            self.final_scores_relation(scores@),
    ;
}

/// Score summary for an agent of a two-player tournament: wins, draws,
/// losses, and a tie-breaker.
#[derive(PartialEq, Eq, Structural, PartialOrd, Ord, Debug, Clone, Copy)]
pub struct TwoPlayersGameScore {
    /// Number of wins.
    pub num_win: u32,
    /// Number of draws.
    pub num_draw: u32,
    /// Number of losses.
    pub num_lose: u32,
    /// Median tie-breaker: the adversaries' points, summed without the
    /// best and the worst of them.
    pub tie_breaker: u32,
}

impl Default for TwoPlayersGameScore {
    /// All counters start at zero.
    fn default() -> (s: Self)
        ensures
            s == (TwoPlayersGameScore { num_win: 0, num_draw: 0, num_lose: 0, tie_breaker: 0 }),
    {
        TwoPlayersGameScore { num_win: 0, num_draw: 0, num_lose: 0, tie_breaker: 0 }
    }
}

/// A counter bumped by one, stopping at its ceiling.
pub open spec fn sat_inc(c: u32) -> u32 {
    if c == u32::MAX {
        c
    } else {
        (c + 1) as u32
    }
}

/// The score of the first entry of `r` carrying `id`; 0 when none does.
pub open spec fn score_of_id(r: Seq<(Agent, i64)>, id: u32) -> int
    decreases r.len(),
{
    if r.len() == 0 {
        0
    } else if r[0].0.id == id {
        r[0].1 as int
    } else {
        score_of_id(r.drop_first(), id)
    }
}

/// Whether some entry of `r` carries `id`.
pub open spec fn result_has_id(r: Seq<(Agent, i64)>, id: u32) -> bool {
    exists|k: int| 0 <= k < r.len() && (#[trigger] r[k]).0.id == id
}

/// The entries of `r` carry pairwise distinct ids.
pub open spec fn distinct_result_ids(r: Seq<(Agent, i64)>) -> bool {
    forall|k: int, l: int|
        0 <= k < r.len() && 0 <= l < r.len() && k != l ==> r[k].0.id != r[l].0.id
}

/// When ids are distinct, looking a participant's score up by its id
/// gives that participant's score.
proof fn lemma_score_of_id(r: Seq<(Agent, i64)>, p: int)
    requires
        0 <= p < r.len(),
        distinct_result_ids(r),
    ensures
        score_of_id(r, r[p].0.id) == r[p].1,
    decreases p,
{
    if p == 0 {
    } else {
        assert(r[0].0.id != r[p].0.id);
        assert(distinct_result_ids(r.drop_first())) by {
            assert(forall|k: int, l: int|
                0 <= k < r.drop_first().len() && 0 <= l < r.drop_first().len() && k != l
                    ==> (#[trigger] r.drop_first()[k]).0.id != (#[trigger] r.drop_first()[l]).0.id)
                by {
                assert(forall|k: int|
                    0 <= k < r.drop_first().len() ==> #[trigger] r.drop_first()[k] == r[k + 1]);
            }
        }
        lemma_score_of_id(r.drop_first(), p - 1);
        assert(r.drop_first()[p - 1] == r[p]);
    }
}

/// The best score among the entries of `r` (meaningful when `r` is
/// nonempty).
pub open spec fn best_of(r: Seq<(Agent, i64)>) -> int
    decreases r.len(),
{
    if r.len() <= 1 {
        r[0].1 as int
    } else {
        vstd::math::max(best_of(r.drop_last()), r.last().1 as int)
    }
}

/// A result is a draw when every seat reached the best score.
pub open spec fn is_draw_of(r: Seq<(Agent, i64)>) -> bool {
    forall|k: int| 0 <= k < r.len() ==> (#[trigger] r[k]).1 == best_of(r)
}

/// How one match result changes the score of the agent with `id`: a
/// draw when every seat tied on the best score, a win for reaching the
/// best score, a loss otherwise; agents not seated are untouched.
pub open spec fn rr_outcome(s: TwoPlayersGameScore, r: Seq<(Agent, i64)>, id: u32) -> TwoPlayersGameScore {
    if !result_has_id(r, id) {
        s
    } else if is_draw_of(r) {
        TwoPlayersGameScore { num_draw: sat_inc(s.num_draw), ..s }
    } else if score_of_id(r, id) == best_of(r) {
        TwoPlayersGameScore { num_win: sat_inc(s.num_win), ..s }
    } else {
        TwoPlayersGameScore { num_lose: sat_inc(s.num_lose), ..s }
    }
}

/// One match result folded into the whole score table.
pub open spec fn rr_credit_one(
    scores: Seq<TwoPlayersGameScore>,
    ids: Seq<u32>,
    r: Seq<(Agent, i64)>,
) -> Seq<TwoPlayersGameScore> {
    Seq::new(scores.len(), |k: int| rr_outcome(scores[k], r, ids[k]))
}

/// A whole batch of results folded into the score table, in order.
pub open spec fn rr_credit_all(
    scores: Seq<TwoPlayersGameScore>,
    ids: Seq<u32>,
    results: Seq<Seq<(Agent, i64)>>,
) -> Seq<TwoPlayersGameScore>
    decreases results.len(),
{
    if results.len() == 0 {
        scores
    } else {
        rr_credit_one(rr_credit_all(scores, ids, results.drop_last()), ids, results.last())
    }
}

/// The round-robin pairings that pit roster seat `i` against every later
/// seat starting from `j`: `[i, j]`, and `[j, i]` too when the game is
/// not symmetric.
pub open spec fn rr_row_ids(ids: Seq<u32>, i: int, j: int, symmetric: bool) -> Seq<Seq<u32>>
    decreases ids.len() - j,
{
    if j < 0 || j >= ids.len() {
        Seq::<Seq<u32>>::empty()
    } else {
        (if symmetric {
            seq![seq![ids[i], ids[j]]]
        } else {
            seq![seq![ids[i], ids[j]], seq![ids[j], ids[i]]]
        }) + rr_row_ids(ids, i, j + 1, symmetric)
    }
}

/// All round-robin pairings among seats `i` and later, by id: every seat
/// against every strictly later seat, never against itself.
pub open spec fn rr_rows_ids(ids: Seq<u32>, i: int, symmetric: bool) -> Seq<Seq<u32>>
    decreases ids.len() - i,
{
    if i < 0 || i >= ids.len() {
        Seq::<Seq<u32>>::empty()
    } else {
        rr_row_ids(ids, i, i + 1, symmetric) + rr_rows_ids(ids, i + 1, symmetric)
    }
}

proof fn lemma_rr_row_len(ids: Seq<u32>, i: int, j: int, symmetric: bool)
    requires
        0 <= j <= ids.len(),
    ensures
        rr_row_ids(ids, i, j, symmetric).len() == if symmetric {
            ids.len() - j
        } else {
            2 * (ids.len() - j)
        },
    decreases ids.len() - j,
{
    if j < ids.len() {
        lemma_rr_row_len(ids, i, j + 1, symmetric);
    }
}

/// The number of round-robin pairings among seats `i` and later: each of
/// the `n - i` seats meets every later one once (twice when sides
/// matter).
pub proof fn lemma_rr_rows_len(ids: Seq<u32>, i: int, symmetric: bool)
    requires
        0 <= i <= ids.len(),
    ensures
        symmetric ==> 2 * (rr_rows_ids(ids, i, symmetric).len() as int) == (ids.len() - i) * (
        ids.len() - i - 1),
        !symmetric ==> rr_rows_ids(ids, i, symmetric).len() as int == (ids.len() - i) * (ids.len()
            - i - 1),
    decreases ids.len() - i,
{
    let n = ids.len() as int;
    if i < n {
        lemma_rr_row_len(ids, i, i + 1, symmetric);
        lemma_rr_rows_len(ids, i + 1, symmetric);
        let row = rr_row_ids(ids, i, i + 1, symmetric).len() as int;
        let rest = rr_rows_ids(ids, i + 1, symmetric).len() as int;
        assert(rr_rows_ids(ids, i, symmetric).len() == row + rest);
        lemma_triangle_step(n, i);
        if symmetric {
            assert(2 * (row + rest) == (n - i) * (n - i - 1));
        } else {
            assert(row + rest == (n - i) * (n - i - 1));
        }
    } else {
        assert(i == n);
        assert(rr_rows_ids(ids, i, symmetric).len() == 0);
        assert((n - i) * (n - i - 1) == 0) by (nonlinear_arith)
            requires
                i == n,
        ;
    }
}

/// Counting pairs: one seat against the `n - i - 1` later seats, plus the
/// pairs among those, is all pairs of the last `n - i` seats.
proof fn lemma_triangle_step(n: int, i: int)
    requires
        0 <= i < n,
    ensures
        2 * (n - i - 1) + (n - (i + 1)) * (n - (i + 1) - 1) == (n - i) * (n - i - 1),
{
    assert(2 * (n - i - 1) + (n - (i + 1)) * (n - (i + 1) - 1) == (n - i) * (n - i - 1))
        by (nonlinear_arith);
}

/// A round-robin tournament: in its one round, every agent plays every
/// other agent (in both seat orders when `symmetric` is false), and the
/// aggregated wins, draws and losses rank the agents.
#[derive(Debug)]
pub struct RoundRobinTournament {
    /// The roster, as handed to `add_agents`.
    pub agents: Vec<Agent>,
    /// Per-roster-seat score, same order as `agents`.
    pub scores: Vec<TwoPlayersGameScore>,
    /// Whether any result has been credited; once one has, the single
    /// round is over and no further pairings are emitted.
    pub credited: bool,
    /// True when seat order does not matter, so each pair meets once.
    pub symmetric: bool,
}

impl RoundRobinTournament {
    /// Creates a round-robin tournament; `symmetric` says whether playing
    /// A against B is the same game as B against A.
    pub fn new(symmetric: bool) -> (t: RoundRobinTournament)
        ensures
            t.inv(),
            t.agents@.len() == 0,
            t.scores@.len() == 0,
            !t.credited,
            t.symmetric == symmetric,
    {
        RoundRobinTournament { agents: Vec::new(), scores: Vec::new(), credited: false, symmetric }
    }
}

/// Finds the roster seat that carries `id`.
fn find_seat(agents: &Vec<Agent>, id: u32) -> (seat: usize)
    requires
        roster_has_id(agents@, id),
    ensures
        seat < agents@.len(),
        agents@[seat as int].id == id,
{
    let mut i: usize = 0;
    while i < agents.len()
        invariant
            i <= agents@.len(),
            roster_has_id(agents@, id),
            forall|k: int| 0 <= k < i ==> (#[trigger] agents@[k]).id != id,
        decreases agents@.len() - i,
    {
        if agents[i].id == id {
            return i;
        }
        i += 1;
    }
    proof {
        assert(false);
    }
    0
}

impl TournamentStrategy for RoundRobinTournament {
    type FinalScore = TwoPlayersGameScore;

    /// Round-robin matches seat two players.
    open spec fn spec_players_per_match(&self) -> int {
        2
    }

    /// Roster ids are distinct and the score table parallels the roster.
    open spec fn inv(&self) -> bool {
        &&& distinct_ids(self.agents@)
        &&& self.scores@.len() == self.agents@.len()
    }

    /// A result seats at least one agent; every participant is a distinct
    /// member of the roster.
    open spec fn result_wf(&self, r: Seq<(Agent, i64)>) -> bool {
        &&& r.len() >= 1
        &&& distinct_result_ids(r)
        &&& forall|k: int| 0 <= k < r.len() ==> roster_has_id(self.agents@, (#[trigger] r[k]).0.id)
    }

    /// The final table: every roster agent, in roster order, with its
    /// aggregated score.
    open spec fn final_scores_relation(&self, scores: Seq<(Agent, TwoPlayersGameScore)>) -> bool {
        &&& scores.len() == self.agents@.len()
        &&& forall|k: int|
            0 <= k < scores.len() ==> clone_of(self.agents@[k], (#[trigger] scores[k]).0)
                && scores[k].1 == self.scores@[k]
    }

    /// The round-robin round: results are credited exactly, and the one
    /// and only round — every agent against every other — is emitted the
    /// first time, nothing afterwards.
    open spec fn round_relation(&self, results: Seq<MatchResult>, next: Self, round: Seq<Vec<Agent>>) -> bool {
        &&& next.agents@ == self.agents@
        &&& next.symmetric == self.symmetric
        &&& next.credited == (self.credited || results.len() > 0)
        &&& next.scores@ == rr_credit_all(
            self.scores@,
            ids_of(self.agents@),
            results.map_values(|v: MatchResult| v@),
        )
        &&& (self.credited || results.len() > 0 ==> round.len() == 0)
        &&& (!(self.credited || results.len() > 0) ==> round.map_values(|v: Vec<Agent>| ids_of(v@))
            == rr_rows_ids(ids_of(self.agents@), 0, self.symmetric))
        &&& forall|k: int, m: int|
            0 <= k < round.len() && 0 <= m < round[k]@.len() ==> from_roster(
                self.agents@,
                #[trigger] round[k]@[m],
            )
        &&& forall|k: int|
            0 <= k < round.len() ==> (#[trigger] round[k])@.len() == 2 && round[k]@[0].id
                != round[k]@[1].id
    }

    fn add_agents(&mut self, agents: Vec<Agent>)
        ensures
            final(self).agents@ == agents@,
            final(self).credited == old(self).credited,
            final(self).symmetric == old(self).symmetric,
            forall|k: int|
                0 <= k < agents@.len() ==> final(self).scores@[k] == (TwoPlayersGameScore {
                    num_win: 0,
                    num_draw: 0,
                    num_lose: 0,
                    tie_breaker: 0,
                }),
    {
        let n = agents.len();
        self.agents = agents;
        let mut scores: Vec<TwoPlayersGameScore> = Vec::new();
        let mut i: usize = 0;
        while i < n
            invariant
                i <= n,
                scores@.len() == i,
                forall|k: int|
                    0 <= k < i ==> scores@[k] == (TwoPlayersGameScore {
                        num_win: 0,
                        num_draw: 0,
                        num_lose: 0,
                        tie_breaker: 0,
                    }),
            decreases n - i,
        {
            scores.push(TwoPlayersGameScore::default());
            i += 1;
        }
        self.scores = scores;
    }

    /// Credits the given results, then — if this tournament's single
    /// round has not run yet — emits every pairing of two distinct
    /// agents, strictly one pairing per unordered pair when symmetric and
    /// both seat orders otherwise.  Once anything was credited, the
    /// tournament is over and the answer is empty.
    fn advance_round(&mut self, results: Vec<MatchResult>) -> (pending: Vec<Vec<Agent>>)
        ensures
            final(self).agents@ == old(self).agents@,
            final(self).symmetric == old(self).symmetric,
            final(self).credited == (old(self).credited || results@.len() > 0),
            final(self).scores@ == rr_credit_all(
                old(self).scores@,
                ids_of(old(self).agents@),
                results@.map_values(|v: MatchResult| v@),
            ),
            old(self).credited || results@.len() > 0 ==> pending@.len() == 0,
            !(old(self).credited || results@.len() > 0) ==> pending@.map_values(
                |v: Vec<Agent>| ids_of(v@),
            ) == rr_rows_ids(ids_of(old(self).agents@), 0, old(self).symmetric),
            forall|k: int, m: int|
                0 <= k < pending@.len() && 0 <= m < pending@[k]@.len() ==> from_roster(
                    old(self).agents@,
                    #[trigger] pending@[k]@[m],
                ),
            forall|k: int|
                0 <= k < pending@.len() ==> (#[trigger] pending@[k])@.len() == 2 && pending@[k]@[0].id
                    != pending@[k]@[1].id,
    {
        let ghost rseq = results@.map_values(|v: MatchResult| v@);
        let ghost ids = ids_of(self.agents@);
        let num_results = results.len();
        let mut i: usize = 0;
        proof {
            assert(rseq.take(0) =~= Seq::<Seq<(Agent, i64)>>::empty());
        }
        while i < num_results
            invariant
                num_results == results@.len(),
                rseq == results@.map_values(|v: MatchResult| v@),
                ids == ids_of(self.agents@),
                i <= num_results,
                self.inv(),
                self.agents@ == old(self).agents@,
                self.symmetric == old(self).symmetric,
                self.credited == old(self).credited,
                forall|t: int|
                    0 <= t < results@.len() ==> old(self).result_wf((#[trigger] results@[t])@),
                self.scores@ == rr_credit_all(old(self).scores@, ids, rseq.take(i as int)),
            decreases num_results - i,
        {
            let ghost entry_scores = self.scores@;
            let r: &MatchResult = &results[i];
            proof {
                assert(rseq[i as int] == r@);
                assert(old(self).result_wf(r@));
            }
            // The best score of the result, then whether every seat tied on it.
            let mut best: i64 = r[0].1;
            let mut k: usize = 1;
            while k < r.len()
                invariant
                    1 <= k <= r@.len(),
                    r@.len() >= 1,
                    best == best_of(r@.take(k as int)),
                decreases r@.len() - k,
            {
                proof {
                    assert(r@.take(k + 1).drop_last() =~= r@.take(k as int));
                    assert(r@.take(k + 1).last() == r@[k as int]);
                    assert(r@.take(k + 1).len() > 1);
                }
                if r[k].1 > best {
                    best = r[k].1;
                }
                k += 1;
            }
            proof {
                assert(r@.take(r@.len() as int) =~= r@);
            }
            let mut is_draw = true;
            let mut k2: usize = 0;
            while k2 < r.len()
                invariant
                    k2 <= r@.len(),
                    best == best_of(r@),
                    is_draw == (forall|t: int| 0 <= t < k2 ==> (#[trigger] r@[t]).1 == best_of(r@)),
                decreases r@.len() - k2,
            {
                if r[k2].1 != best {
                    is_draw = false;
                }
                k2 += 1;
            }
            // Credit each seated agent.
            let mut p: usize = 0;
            while p < r.len()
                invariant
                    p <= r@.len(),
                    best == best_of(r@),
                    is_draw == is_draw_of(r@),
                    self.inv(),
                    self.agents@ == old(self).agents@,
                    self.symmetric == old(self).symmetric,
                    self.credited == old(self).credited,
                    ids == ids_of(self.agents@),
                    old(self).result_wf(r@),
                    self.scores@.len() == entry_scores.len(),
                    entry_scores.len() == self.agents@.len(),
                    forall|t: int|
                        0 <= t < self.scores@.len() ==> #[trigger] self.scores@[t] == (
                        if exists|q: int| 0 <= q < p && (#[trigger] r@[q]).0.id == ids[t] {
                            rr_outcome(entry_scores[t], r@, ids[t])
                        } else {
                            entry_scores[t]
                        }),
                decreases r@.len() - p,
            {
                let id = r[p].0.id;
                let seat = find_seat(&self.agents, id);
                proof {
                    lemma_score_of_id(r@, p as int);
                    assert(r@[p as int].0.id == ids[seat as int]);
                    assert(forall|q: int|
                        0 <= q < p ==> (#[trigger] r@[q]).0.id != ids[seat as int]);
                    assert(self.scores@[seat as int] == entry_scores[seat as int]);
                    assert(result_has_id(r@, ids[seat as int]));
                }
                let s = self.scores[seat];
                let updated = if is_draw {
                    TwoPlayersGameScore {
                        num_draw: if s.num_draw == u32::MAX {
                            s.num_draw
                        } else {
                            s.num_draw + 1
                        },
                        ..s
                    }
                } else if r[p].1 == best {
                    TwoPlayersGameScore {
                        num_win: if s.num_win == u32::MAX {
                            s.num_win
                        } else {
                            s.num_win + 1
                        },
                        ..s
                    }
                } else {
                    TwoPlayersGameScore {
                        num_lose: if s.num_lose == u32::MAX {
                            s.num_lose
                        } else {
                            s.num_lose + 1
                        },
                        ..s
                    }
                };
                self.scores.set(seat, updated);
                proof {
                    assert(self.scores@[seat as int] == rr_outcome(
                        entry_scores[seat as int],
                        r@,
                        ids[seat as int],
                    ));
                }
                p += 1;
                proof {
                    assert forall|t: int| 0 <= t < self.scores@.len() implies #[trigger] self
                        .scores@[t] == (if exists|q: int|
                        0 <= q < p && (#[trigger] r@[q]).0.id == ids[t] {
                        rr_outcome(entry_scores[t], r@, ids[t])
                    } else {
                        entry_scores[t]
                    }) by {
                        if t == seat {
                            assert(r@[p - 1].0.id == ids[t]);
                        } else {
                            if exists|q: int| 0 <= q < p && (#[trigger] r@[q]).0.id == ids[t] {
                                let q = choose|q: int|
                                    0 <= q < p && (#[trigger] r@[q]).0.id == ids[t];
                                assert(q < p - 1 || q == p - 1);
                                assert(r@[p - 1].0.id == ids[seat as int]);
                                assert(distinct_ids(self.agents@));
                            }
                        }
                    }
                }
            }
            proof {
                assert forall|t: int| 0 <= t < self.scores@.len() implies #[trigger] self
                    .scores@[t] == rr_credit_one(entry_scores, ids, r@)[t] by {
                    if result_has_id(r@, ids[t]) {
                    }
                }
                assert(self.scores@ =~= rr_credit_one(entry_scores, ids, r@));
                assert(rseq.take(i + 1).drop_last() =~= rseq.take(i as int));
                assert(rseq.take(i + 1).last() == rseq[i as int]);
            }
            i += 1;
        }
        proof {
            assert(rseq.take(num_results as int) =~= rseq);
        }
        if num_results > 0 {
            self.credited = true;
        }
        if self.credited {
            let out: Vec<Vec<Agent>> = Vec::new();
            proof {
                assert(out@.map_values(|v: Vec<Agent>| ids_of(v@)) =~= Seq::<Seq<u32>>::empty());
                assert(old(self).round_relation(results@, *self, out@));
            }
            return out;
        }
        // The one and only round: every agent against every other.
        let n = self.agents.len();
        let mut pending: Vec<Vec<Agent>> = Vec::new();
        let mut a: usize = 0;
        proof {
            assert(pending@.map_values(|v: Vec<Agent>| ids_of(v@)) =~= Seq::<Seq<u32>>::empty());
        }
        while a < n
            invariant
                n == self.agents@.len(),
                self.inv(),
                a <= n,
                ids == ids_of(self.agents@),
                rr_rows_ids(ids, 0, self.symmetric) == pending@.map_values(
                    |v: Vec<Agent>| ids_of(v@),
                ) + rr_rows_ids(ids, a as int, self.symmetric),
                forall|k: int, m: int|
                    0 <= k < pending@.len() && 0 <= m < pending@[k]@.len() ==> from_roster(
                        self.agents@,
                        #[trigger] pending@[k]@[m],
                    ),
                forall|k: int|
                    0 <= k < pending@.len() ==> (#[trigger] pending@[k])@.len() == 2
                        && pending@[k]@[0].id != pending@[k]@[1].id,
            decreases n - a,
        {
            let mut b: usize = a + 1;
            while b < n
                invariant
                    n == self.agents@.len(),
                    self.inv(),
                    a < n,
                    a + 1 <= b <= n,
                    ids == ids_of(self.agents@),
                    rr_rows_ids(ids, 0, self.symmetric) == pending@.map_values(
                        |v: Vec<Agent>| ids_of(v@),
                    ) + rr_row_ids(ids, a as int, b as int, self.symmetric) + rr_rows_ids(
                        ids,
                        a + 1,
                        self.symmetric,
                    ),
                    forall|k: int, m: int|
                        0 <= k < pending@.len() && 0 <= m < pending@[k]@.len() ==> from_roster(
                            self.agents@,
                            #[trigger] pending@[k]@[m],
                        ),
                    forall|k: int|
                        0 <= k < pending@.len() ==> (#[trigger] pending@[k])@.len() == 2
                            && pending@[k]@[0].id != pending@[k]@[1].id,
                decreases n - b,
            {
                let ghost pending0 = pending@;
                let first = self.agents[a].clone();
                let second = self.agents[b].clone();
                let mut pairing: Vec<Agent> = Vec::new();
                pairing.push(first);
                pairing.push(second);
                pending.push(pairing);
                if !self.symmetric {
                    let first2 = self.agents[b].clone();
                    let second2 = self.agents[a].clone();
                    let mut pairing2: Vec<Agent> = Vec::new();
                    pairing2.push(first2);
                    pairing2.push(second2);
                    pending.push(pairing2);
                }
                proof {
                    assert(forall|k: int|
                        0 <= k < pending0.len() ==> #[trigger] pending@[k] == pending0[k]);
                    assert(pending@[pending0.len() as int]@[0].id == ids[a as int]);
                    assert(ids[a as int] != ids[b as int]);
                    assert(pending@.map_values(|v: Vec<Agent>| ids_of(v@)) =~~= pending0.map_values(
                        |v: Vec<Agent>| ids_of(v@),
                    ) + (if self.symmetric {
                        seq![seq![ids[a as int], ids[b as int]]]
                    } else {
                        seq![
                            seq![ids[a as int], ids[b as int]],
                            seq![ids[b as int], ids[a as int]],
                        ]
                    }));
                    assert(rr_rows_ids(ids, 0, self.symmetric) =~~= pending@.map_values(
                        |v: Vec<Agent>| ids_of(v@),
                    ) + rr_row_ids(ids, a as int, b + 1, self.symmetric) + rr_rows_ids(
                        ids,
                        a + 1,
                        self.symmetric,
                    ));
                }
                b += 1;
            }
            a += 1;
            proof {
                assert(rr_rows_ids(ids, 0, self.symmetric) =~= pending@.map_values(
                    |v: Vec<Agent>| ids_of(v@),
                ) + rr_rows_ids(ids, a as int, self.symmetric));
            }
        }
        proof {
            assert(rr_rows_ids(ids, n as int, self.symmetric) =~= Seq::<Seq<u32>>::empty());
            assert(pending@.map_values(|v: Vec<Agent>| ids_of(v@)) =~= rr_rows_ids(
                ids,
                0,
                self.symmetric,
            ));
            assert(old(self).round_relation(results@, *self, pending@));
        }
        pending
    }

    fn players_per_match(&self) -> (n: usize) {
        2
    }

    /// Every roster agent with its aggregated score, in roster order.
    fn get_final_scores(&self) -> (scores: Vec<(Agent, TwoPlayersGameScore)>)
        ensures
            scores@.len() == self.agents@.len(),
            forall|k: int|
                0 <= k < scores@.len() ==> clone_of(self.agents@[k], (#[trigger] scores@[k]).0)
                    && scores@[k].1 == self.scores@[k],
    {
        let mut out: Vec<(Agent, TwoPlayersGameScore)> = Vec::new();
        let mut i: usize = 0;
        while i < self.agents.len()
            invariant
                i <= self.agents@.len(),
                self.scores@.len() == self.agents@.len(),
                out@.len() == i,
                forall|k: int|
                    0 <= k < i ==> clone_of(self.agents@[k], (#[trigger] out@[k]).0) && out@[k].1
                        == self.scores@[k],
            decreases self.agents@.len() - i,
        {
            out.push((self.agents[i].clone(), self.scores[i]));
            i += 1;
        }
        out
    }
}

/// The Swiss points of a score: two per win, one per draw.
pub open spec fn points_of(s: TwoPlayersGameScore) -> int {
    2 * s.num_win + s.num_draw
}

/// The points of the roster member carrying `id`; 0 when none does.
pub open spec fn points_by_id(ids: Seq<u32>, scores: Seq<TwoPlayersGameScore>, id: u32) -> int
    decreases ids.len(),
{
    if ids.len() == 0 || scores.len() == 0 {
        0
    } else if ids[0] == id {
        points_of(scores[0])
    } else {
        points_by_id(ids.drop_first(), scores.drop_first(), id)
    }
}

proof fn lemma_points_by_id(ids: Seq<u32>, scores: Seq<TwoPlayersGameScore>, t: int)
    requires
        ids.len() == scores.len(),
        0 <= t < ids.len(),
        ids.no_duplicates(),
    ensures
        points_by_id(ids, scores, ids[t]) == points_of(scores[t]),
    decreases t,
{
    if t > 0 {
        assert(ids[0] != ids[t]);
        assert(ids.drop_first().no_duplicates()) by {
            assert(forall|k: int|
                0 <= k < ids.drop_first().len() ==> #[trigger] ids.drop_first()[k] == ids[k + 1]);
        }
        lemma_points_by_id(ids.drop_first(), scores.drop_first(), t - 1);
        assert(ids.drop_first()[t - 1] == ids[t]);
        assert(scores.drop_first()[t - 1] == scores[t]);
    }
}

/// The sum of a sequence of numbers.
pub open spec fn seq_sum(s: Seq<int>) -> int
    decreases s.len(),
{
    if s.len() == 0 {
        0
    } else {
        seq_sum(s.drop_last()) + s.last()
    }
}

/// The least element of a nonempty sequence.
pub open spec fn seq_min(s: Seq<int>) -> int
    decreases s.len(),
{
    if s.len() <= 1 {
        s[0]
    } else {
        vstd::math::min(seq_min(s.drop_last()), s.last())
    }
}

/// The greatest element of a nonempty sequence.
pub open spec fn seq_max(s: Seq<int>) -> int
    decreases s.len(),
{
    if s.len() <= 1 {
        s[0]
    } else {
        vstd::math::max(seq_max(s.drop_last()), s.last())
    }
}

/// The median tie-breaker over a player's adversaries' points: their sum
/// without the least and the greatest of them, and 0 for a player with at
/// most one adversary.
pub open spec fn tie_of(points: Seq<int>) -> int {
    if points.len() <= 1 {
        0
    } else {
        seq_sum(points) - seq_min(points) - seq_max(points)
    }
}

/// A value clamped into `u32`.
pub open spec fn sat_u32(x: int) -> u32 {
    if x > u32::MAX {
        u32::MAX
    } else if x < 0 {
        0u32
    } else {
        x as u32
    }
}

/// The points of each adversary of roster seat `i`.
pub open spec fn adv_points(
    ids: Seq<u32>,
    scores: Seq<TwoPlayersGameScore>,
    advs: Seq<u32>,
) -> Seq<int> {
    Seq::new(advs.len(), |j: int| points_by_id(ids, scores, advs[j]))
}

/// Every tie-breaker recomputed over the current scores and adversary
/// lists; wins, draws and losses stay as they are.
pub open spec fn refresh_tie_breakers(
    ids: Seq<u32>,
    scores: Seq<TwoPlayersGameScore>,
    advs: Seq<Seq<u32>>,
) -> Seq<TwoPlayersGameScore> {
    Seq::new(
        scores.len(),
        |i: int|
            TwoPlayersGameScore {
                tie_breaker: sat_u32(tie_of(adv_points(ids, scores, advs[i]))),
                ..scores[i]
            },
    )
}

/// A Swiss-style tournament for two-player games.  Agents are paired
/// round by round against opponents with similar points that they have
/// not met yet; unpairable agents receive a bye (a free win).  The number
/// of rounds is fixed, or `ceil(log2(n))` when constructed with 0.
#[derive(Debug)]
pub struct SwissTournament {
    /// The roster, as handed to `add_agents`.
    pub agents: Vec<Agent>,
    /// Rounds emitted so far.
    pub round: usize,
    /// Rounds the tournament runs; set from the roster size when it was 0.
    pub max_rounds: usize,
    /// How many games each emitted pair plays, alternating seat order.
    pub num_match_per_pair: usize,
    /// Per-roster-seat score, same order as `agents`.
    pub scores: Vec<TwoPlayersGameScore>,
    /// Per-roster-seat list of adversary ids met so far.
    pub adversaries: Vec<Vec<u32>>,
    /// Ids of the agents that have received a bye.
    pub bye_history: Vec<u32>,
}

/// The number of Swiss rounds for `n` players: the least `k` with
/// `2^k >= n`, i.e. `ceil(log2(n))`, and 0 for at most one player.
pub open spec fn spec_auto_rounds(n: int) -> int
    decreases n,
{
    if n <= 1 {
        0
    } else {
        1 + spec_auto_rounds((n + 1) / 2)
    }
}

proof fn lemma_auto_rounds_bound(n: int)
    requires
        n >= 0,
    ensures
        0 <= spec_auto_rounds(n) <= n,
    decreases n,
{
    if n > 1 {
        lemma_auto_rounds_bound((n + 1) / 2);
    }
}

/// `ceil(log2(n))`, the automatic Swiss round count.
fn auto_round_count(n: usize) -> (r: usize)
    ensures
        r as int == spec_auto_rounds(n as int),
{
    let mut k: usize = 0;
    let mut m: usize = n;
    proof {
        lemma_auto_rounds_bound(n as int);
    }
    while m > 1
        invariant
            spec_auto_rounds(n as int) == k + spec_auto_rounds(m as int),
            0 <= spec_auto_rounds(m as int) <= m,
            k <= spec_auto_rounds(n as int),
            spec_auto_rounds(n as int) <= n,
        decreases m,
    {
        proof {
            lemma_auto_rounds_bound(((m + 1) / 2) as int);
        }
        m = m / 2 + m % 2;
        k = k + 1;
    }
    k
}

impl SwissTournament {
    /// Creates a Swiss tournament playing `num_match_per_pair` games per
    /// pairing, with the round count chosen automatically as
    /// `ceil(log2(n))` once the roster is known.
    pub fn with_auto_rounds(num_match_per_pair: usize) -> (t: SwissTournament)
        requires
            num_match_per_pair >= 1,
        ensures
            t.inv(),
            t.round == 0,
            t.max_rounds == 0,
            t.num_match_per_pair == num_match_per_pair,
            t.agents@.len() == 0,
            t.bye_history@.len() == 0,
    {
        Self::new(0, num_match_per_pair)
    }

    /// Creates a Swiss tournament with `max_rounds` rounds (0 meaning
    /// automatic) and `num_match_per_pair` games per pairing; at least one
    /// game per pairing is required.
    pub fn new(max_rounds: usize, num_match_per_pair: usize) -> (t: SwissTournament)
        requires
            num_match_per_pair >= 1,
        ensures
            t.inv(),
            t.round == 0,
            t.max_rounds == max_rounds,
            t.num_match_per_pair == num_match_per_pair,
            t.agents@.len() == 0,
            t.bye_history@.len() == 0,
    {
        SwissTournament {
            agents: Vec::new(),
            round: 0,
            max_rounds,
            num_match_per_pair,
            scores: Vec::new(),
            adversaries: Vec::new(),
            bye_history: Vec::new(),
        }
    }

    /// Whether the two agents already met in an earlier round.
    pub open spec fn spec_has_played(&self, a: u32, b: u32) -> bool {
        played_in(self.agents@, advs_view(self.adversaries@), a, b)
    }

    /// Whether agent `a` has already played against agent `b`.
    pub fn has_played(&self, a: &Agent, b: &Agent) -> (r: bool)
        requires
            self.inv(),
            roster_has_id(self.agents@, a.id),
        ensures
            r == self.spec_has_played(a.id, b.id),
    {
        let seat = find_seat(&self.agents, a.id);
        let advs = &self.adversaries[seat];
        let mut j: usize = 0;
        while j < advs.len()
            invariant
                j <= advs@.len(),
                advs@ == self.adversaries@[seat as int]@,
                seat < self.agents@.len(),
                self.inv(),
                self.agents@[seat as int].id == a.id,
                forall|t: int| 0 <= t < j ==> advs@[t] != b.id,
            decreases advs@.len() - j,
        {
            if advs[j] == b.id {
                proof {
                    assert(self.adversaries@[seat as int]@.contains(b.id));
                }
                return true;
            }
            j += 1;
        }
        proof {
            assert(!self.adversaries@[seat as int]@.contains(b.id));
            assert(!self.spec_has_played(a.id, b.id)) by {
                if self.spec_has_played(a.id, b.id) {
                    let i = choose|i: int|
                        0 <= i < self.agents@.len() && (#[trigger] self.agents@[i]).id == a.id
                            && advs_view(self.adversaries@)[i].contains(b.id);
                    assert(i == seat);
                    assert(advs_view(self.adversaries@)[i] == self.adversaries@[i]@);
                }
            }
        }
        false
    }

    /// Recomputes every tie-breaker: the sum of each player's
    /// adversaries' points with the least and greatest left out, clamped
    /// into `u32`; 0 with at most one adversary.  Nothing else changes.
    fn update_tie_breakers(&mut self)
        requires
            old(self).inv(),
        ensures
            final(self).inv(),
            final(self).agents@ == old(self).agents@,
            final(self).round == old(self).round,
            final(self).max_rounds == old(self).max_rounds,
            final(self).num_match_per_pair == old(self).num_match_per_pair,
            final(self).adversaries@ == old(self).adversaries@,
            final(self).bye_history@ == old(self).bye_history@,
            final(self).scores@.len() == old(self).scores@.len(),
            forall|i: int|
                0 <= i < old(self).scores@.len() ==> #[trigger] final(self).scores@[i] == (
                TwoPlayersGameScore {
                    tie_breaker: sat_u32(
                        tie_of(
                            adv_points(
                                ids_of(old(self).agents@),
                                old(self).scores@,
                                old(self).adversaries@[i]@,
                            ),
                        ),
                    ),
                    ..old(self).scores@[i]
                }),
    {
        let ghost ids = ids_of(self.agents@);
        let ghost scores0 = self.scores@;
        let n = self.agents.len();
        let mut i: usize = 0;
        while i < n
            invariant
                n == self.agents@.len(),
                self.inv(),
                i <= n,
                ids == ids_of(self.agents@),
                self.agents@ == old(self).agents@,
                self.round == old(self).round,
                self.max_rounds == old(self).max_rounds,
                self.num_match_per_pair == old(self).num_match_per_pair,
                self.adversaries@ == old(self).adversaries@,
                self.bye_history@ == old(self).bye_history@,
                scores0 == old(self).scores@,
                self.scores@.len() == scores0.len(),
                forall|t: int|
                    0 <= t < i ==> #[trigger] self.scores@[t] == (TwoPlayersGameScore {
                        tie_breaker: sat_u32(tie_of(adv_points(ids, scores0, self.adversaries@[t]@))),
                        ..scores0[t]
                    }),
                forall|t: int| i <= t < n ==> #[trigger] self.scores@[t] == scores0[t],
                forall|t: int|
                    0 <= t < n ==> points_of(#[trigger] self.scores@[t]) == points_of(scores0[t]),
            decreases n - i,
        {
            let ghost gadvs = self.adversaries@[i as int]@;
            let ghost gpoints = adv_points(ids, scores0, gadvs);
            let advs_len = self.adversaries[i].len();
            // Gather the adversaries' points, tracking sum, least and
            // greatest as we go.
            let mut sum: u128 = 0;
            let mut low: u64 = 0;
            let mut high: u64 = 0;
            let mut j: usize = 0;
            while j < advs_len
                invariant
                    n == self.agents@.len(),
                    self.inv(),
                    i < n,
                    ids == ids_of(self.agents@),
                    advs_len == gadvs.len(),
                    gadvs == self.adversaries@[i as int]@,
                    gpoints == adv_points(ids, scores0, gadvs),
                    scores0.len() == n,
                    self.scores@.len() == n,
                    forall|t: int|
                        0 <= t < n ==> points_of(#[trigger] self.scores@[t]) == points_of(
                            scores0[t],
                        ),
                    j <= advs_len,
                    forall|t: int| 0 <= t < j ==> 0 <= #[trigger] gpoints[t] < 0x800000000u64,
                    j >= 1 ==> sum as int == seq_sum(gpoints.take(j as int)),
                    j >= 1 ==> low as int == seq_min(gpoints.take(j as int)),
                    j >= 1 ==> high as int == seq_max(gpoints.take(j as int)),
                    j == 0 ==> sum == 0 && low == 0 && high == 0,
                    sum <= (j as u128) * 0x800000000u128,
                    j == 1 ==> sum as int == low as int && low == high,
                    j >= 2 ==> sum as int >= low as int + high as int,
                    low <= high,
                decreases advs_len - j,
            {
                let adv_id = self.adversaries[i][j];
                let seat = find_seat(&self.agents, adv_id);
                let sc = self.scores[seat];
                let p: u64 = 2 * (sc.num_win as u64) + (sc.num_draw as u64);
                proof {
                    assert(ids.no_duplicates()) by {
                        assert(forall|x: int, y: int|
                            0 <= x < n && 0 <= y < n && x != y ==> ids[x] != ids[y]);
                    }
                    lemma_points_by_id(ids, self.scores@, seat as int);
                    assert(ids[seat as int] == adv_id);
                    assert(points_by_id(ids, self.scores@, adv_id) == points_of(
                        self.scores@[seat as int],
                    ));
                    assert(points_by_id(ids, scores0, adv_id) == points_by_id(
                        ids,
                        self.scores@,
                        adv_id,
                    )) by {
                        lemma_points_by_id_same(ids, scores0, self.scores@, adv_id);
                    }
                    assert(gpoints[j as int] == p as int);
                    assert(gpoints.take(j + 1).drop_last() =~= gpoints.take(j as int));
                    assert(gpoints.take(j + 1).last() == gpoints[j as int]);
                    assert((j as u128) * 0x800000000u128 + 0x800000000u128 == ((j + 1) as u128)
                        * 0x800000000u128) by (nonlinear_arith);
                    assert((j as int) * 0x800000000 <= 0xffffffffffffffffi128 * 0x800000000)
                        by (nonlinear_arith)
                        requires
                            0 <= j <= 0xffffffffffffffffi128,
                    ;
                }
                if j == 0 {
                    sum = p as u128;
                    low = p;
                    high = p;
                } else {
                    sum = sum + (p as u128);
                    if p < low {
                        low = p;
                    }
                    if p > high {
                        high = p;
                    }
                }
                proof {
                    let taken = gpoints.take(j + 1);
                    assert(seq_sum(taken) == seq_sum(gpoints.take(j as int)) + gpoints[j as int]);
                    if j >= 1 {
                        assert(taken.len() > 1);
                        assert(seq_min(taken) == vstd::math::min(
                            seq_min(gpoints.take(j as int)),
                            gpoints[j as int],
                        ));
                        assert(seq_max(taken) == vstd::math::max(
                            seq_max(gpoints.take(j as int)),
                            gpoints[j as int],
                        ));
                    }
                }
                j += 1;
            }
            proof {
                assert(gpoints.take(advs_len as int) =~= gpoints);
            }
            let tie: u32 = if advs_len <= 1 {
                0
            } else {
                let spread = sum - (low as u128) - (high as u128);
                if spread > u32::MAX as u128 {
                    u32::MAX
                } else {
                    spread as u32
                }
            };
            let s = self.scores[i];
            self.scores.set(i, TwoPlayersGameScore { tie_breaker: tie, ..s });
            proof {
                assert(self.scores@[i as int] == (TwoPlayersGameScore {
                    tie_breaker: sat_u32(tie_of(adv_points(ids, scores0, self.adversaries@[i as int]@))),
                    ..scores0[i as int]
                }));
            }
            i += 1;
        }
    }
}

/// The smaller id seated in a two-player result.
pub open spec fn pair_lo(r: Seq<(Agent, i64)>) -> u32 {
    if r[0].0.id < r[1].0.id {
        r[0].0.id
    } else {
        r[1].0.id
    }
}

/// The larger id seated in a two-player result.
pub open spec fn pair_hi(r: Seq<(Agent, i64)>) -> u32 {
    if r[0].0.id < r[1].0.id {
        r[1].0.id
    } else {
        r[0].0.id
    }
}

/// The score of the seat with the smaller id.
pub open spec fn pair_lo_score(r: Seq<(Agent, i64)>) -> int {
    if r[0].0.id < r[1].0.id {
        r[0].1 as int
    } else {
        r[1].1 as int
    }
}

/// The score of the seat with the larger id.
pub open spec fn pair_hi_score(r: Seq<(Agent, i64)>) -> int {
    if r[0].0.id < r[1].0.id {
        r[1].1 as int
    } else {
        r[0].1 as int
    }
}

/// The position of the running total for the pair `(lo, hi)`, or -1.
pub open spec fn find_group(gs: Seq<(u32, u32, int, int)>, lo: u32, hi: u32) -> int
    decreases gs.len(),
{
    if gs.len() == 0 {
        -1
    } else if gs[0].0 == lo && gs[0].1 == hi {
        0
    } else {
        let r = find_group(gs.drop_first(), lo, hi);
        if r < 0 {
            -1
        } else {
            r + 1
        }
    }
}

proof fn lemma_find_group_range(gs: Seq<(u32, u32, int, int)>, lo: u32, hi: u32)
    ensures
        -1 <= find_group(gs, lo, hi) < gs.len(),
        find_group(gs, lo, hi) >= 0 ==> gs[find_group(gs, lo, hi)].0 == lo && gs[find_group(
            gs,
            lo,
            hi,
        )].1 == hi,
    decreases gs.len(),
{
    if gs.len() > 0 && !(gs[0].0 == lo && gs[0].1 == hi) {
        lemma_find_group_range(gs.drop_first(), lo, hi);
    }
}

/// A scan that saw no match up to `j` pins `find_group` down: it is `j`
/// when `j` matches, and -1 when the scan covered everything.
proof fn lemma_find_group_scan(gs: Seq<(u32, u32, int, int)>, lo: u32, hi: u32, j: int)
    requires
        0 <= j <= gs.len(),
        forall|t: int| 0 <= t < j ==> !((#[trigger] gs[t]).0 == lo && gs[t].1 == hi),
    ensures
        j < gs.len() && gs[j].0 == lo && gs[j].1 == hi ==> find_group(gs, lo, hi) == j,
        j == gs.len() ==> find_group(gs, lo, hi) == -1,
    decreases j,
{
    if j == 0 {
        if gs.len() > 0 && !(gs[0].0 == lo && gs[0].1 == hi) {
            lemma_find_group_range(gs.drop_first(), lo, hi);
        }
    } else {
        assert(!(gs[0].0 == lo && gs[0].1 == hi));
        assert(forall|t: int|
            0 <= t < j - 1 ==> !((#[trigger] gs.drop_first()[t]).0 == lo && gs.drop_first()[t].1
                == hi)) by {
            assert(forall|t: int|
                0 <= t < gs.drop_first().len() ==> #[trigger] gs.drop_first()[t] == gs[t + 1]);
        }
        lemma_find_group_scan(gs.drop_first(), lo, hi, j - 1);
        if j < gs.len() {
            assert(gs.drop_first()[j - 1] == gs[j]);
        }
    }
}

/// One result folded into the per-pair running totals: a new pair opens a
/// total, a known pair adds to it.
pub open spec fn upsert_group(
    gs: Seq<(u32, u32, int, int)>,
    lo: u32,
    hi: u32,
    sa: int,
    sb: int,
) -> Seq<(u32, u32, int, int)> {
    let k = find_group(gs, lo, hi);
    if k < 0 {
        gs.push((lo, hi, sa, sb))
    } else {
        gs.update(k, (lo, hi, gs[k].2 + sa, gs[k].3 + sb))
    }
}

/// The per-pair aggregated scores of a batch of results, pairs listed in
/// first-appearance order.
pub open spec fn groups_of(results: Seq<Seq<(Agent, i64)>>) -> Seq<(u32, u32, int, int)>
    decreases results.len(),
{
    if results.len() == 0 {
        Seq::<(u32, u32, int, int)>::empty()
    } else {
        let r = results.last();
        upsert_group(
            groups_of(results.drop_last()),
            pair_lo(r),
            pair_hi(r),
            pair_lo_score(r),
            pair_hi_score(r),
        )
    }
}

/// The outcome of an aggregated pair for the smaller id: a draw on equal
/// sums, a win when its sum is larger, a loss otherwise.
pub open spec fn pair_outcome_lo(sa: int, sb: int, s: TwoPlayersGameScore) -> TwoPlayersGameScore {
    if sa == sb {
        TwoPlayersGameScore { num_draw: sat_inc(s.num_draw), ..s }
    } else if sa > sb {
        TwoPlayersGameScore { num_win: sat_inc(s.num_win), ..s }
    } else {
        TwoPlayersGameScore { num_lose: sat_inc(s.num_lose), ..s }
    }
}

/// The outcome of an aggregated pair for the larger id.
pub open spec fn pair_outcome_hi(sa: int, sb: int, s: TwoPlayersGameScore) -> TwoPlayersGameScore {
    pair_outcome_lo(sb, sa, s)
}

/// One aggregated pair credited to the two players it names.
pub open spec fn credit_one_pair(
    scores: Seq<TwoPlayersGameScore>,
    ids: Seq<u32>,
    g: (u32, u32, int, int),
) -> Seq<TwoPlayersGameScore> {
    Seq::new(scores.len(), |k: int| if ids[k] == g.0 {
        pair_outcome_lo(g.2, g.3, scores[k])
    } else if ids[k] == g.1 {
        pair_outcome_hi(g.2, g.3, scores[k])
    } else {
        scores[k]
    })
}

/// Every aggregated pair credited once, in order.
pub open spec fn credit_groups(
    scores: Seq<TwoPlayersGameScore>,
    ids: Seq<u32>,
    gs: Seq<(u32, u32, int, int)>,
) -> Seq<TwoPlayersGameScore>
    decreases gs.len(),
{
    if gs.len() == 0 {
        scores
    } else {
        credit_one_pair(credit_groups(scores, ids, gs.drop_last()), ids, gs.last())
    }
}

/// An id added to an adversary list unless already there.
pub open spec fn insert_id(s: Seq<u32>, id: u32) -> Seq<u32> {
    if s.contains(id) {
        s
    } else {
        s.push(id)
    }
}

/// The bye history after granting byes to the given seats, in order:
/// each seat's id is added unless already recorded.
pub open spec fn record_byes(hist: Seq<u32>, agents: Seq<Agent>, byes: Seq<usize>) -> Seq<u32>
    decreases byes.len(),
{
    if byes.len() == 0 {
        hist
    } else {
        insert_id(record_byes(hist, agents, byes.drop_last()), agents[byes.last() as int].id)
    }
}

/// One aggregated pair recorded in the two players' adversary lists.
pub open spec fn advs_one_pair(
    advs: Seq<Seq<u32>>,
    ids: Seq<u32>,
    lo: u32,
    hi: u32,
) -> Seq<Seq<u32>> {
    Seq::new(advs.len(), |k: int| if ids[k] == lo {
        insert_id(advs[k], hi)
    } else if ids[k] == hi {
        insert_id(advs[k], lo)
    } else {
        advs[k]
    })
}

/// Every aggregated pair recorded in the adversary lists, in order.
pub open spec fn advs_groups(advs: Seq<Seq<u32>>, ids: Seq<u32>, gs: Seq<(u32, u32, int, int)>) -> Seq<
    Seq<u32>,
>
    decreases gs.len(),
{
    if gs.len() == 0 {
        advs
    } else {
        let g = gs.last();
        advs_one_pair(advs_groups(advs, ids, gs.drop_last()), ids, g.0, g.1)
    }
}

/// The adversary lists, as sequences.
pub open spec fn advs_view(advs: Seq<Vec<u32>>) -> Seq<Seq<u32>> {
    advs.map_values(|v: Vec<u32>| v@)
}

/// Whether, by these adversary lists, the agent with id `a` has already
/// met the agent with id `b`.
pub open spec fn played_in(agents: Seq<Agent>, advs: Seq<Seq<u32>>, a: u32, b: u32) -> bool {
    exists|i: int|
        0 <= i < agents.len() && (#[trigger] agents[i]).id == a && advs[i].contains(b)
}

/// The mathematical value of one running pair total.
pub open spec fn group_entry_view(g: (u32, u32, i128, i128)) -> (u32, u32, int, int) {
    (g.0, g.1, g.2 as int, g.3 as int)
}

/// The mathematical value of the running pair totals.
pub open spec fn groups128_view(gs: Seq<(u32, u32, i128, i128)>) -> Seq<(u32, u32, int, int)> {
    gs.map_values(|g: (u32, u32, i128, i128)| group_entry_view(g))
}

/// The seat groups, as sequences.
pub open spec fn groups_view(gs: Seq<Vec<usize>>) -> Seq<Seq<usize>> {
    gs.map_values(|v: Vec<usize>| v@)
}

/// No seat is listed by two different pairs.
pub open spec fn pairs_seat_disjoint(pairs: Seq<(usize, usize)>) -> bool {
    forall|k1: int, k2: int|
        0 <= k1 < pairs.len() && 0 <= k2 < pairs.len() && k1 != k2 ==> (#[trigger] pairs[k1]).0
            != (#[trigger] pairs[k2]).0 && pairs[k1].0 != pairs[k2].1 && pairs[k1].1
            != pairs[k2].0 && pairs[k1].1 != pairs[k2].1
}

/// Whether seat `s` appears in a pair.
pub open spec fn in_pairs(pairs: Seq<(usize, usize)>, s: usize) -> bool {
    exists|k: int| 0 <= k < pairs.len() && ((#[trigger] pairs[k]).0 == s || pairs[k].1 == s)
}

/// The seats of a group list, in order.
pub open spec fn seats_flat(gs: Seq<Seq<usize>>) -> Seq<usize>
    decreases gs.len(),
{
    if gs.len() == 0 {
        Seq::<usize>::empty()
    } else {
        gs[0] + seats_flat(gs.drop_first())
    }
}

proof fn lemma_concat_no_dup(a: Seq<usize>, b: Seq<usize>)
    requires
        (a + b).no_duplicates(),
    ensures
        a.no_duplicates(),
        b.no_duplicates(),
        forall|x: usize| a.contains(x) ==> !b.contains(x),
{
    assert(forall|t: int| 0 <= t < a.len() ==> (a + b)[t] == a[t]);
    assert(forall|t: int| 0 <= t < b.len() ==> (a + b)[t + a.len()] == b[t]);
    assert forall|x: usize| a.contains(x) implies !b.contains(x) by {
        if a.contains(x) && b.contains(x) {
            let i = choose|i: int| 0 <= i < a.len() && a[i] == x;
            let j = choose|j: int| 0 <= j < b.len() && b[j] == x;
            assert((a + b)[i] == x);
            assert((a + b)[j + a.len()] == x);
        }
    }
}

impl SwissTournament {
    /// Aggregates the batch per unordered pair of agents and credits each
    /// pair once: equal sums are a draw for both, otherwise the larger
    /// sum wins; the two agents also enter each other's adversary lists.
    fn update_scores(&mut self, results: &Vec<MatchResult>)
        requires
            old(self).inv(),
            forall|i: int|
                0 <= i < results@.len() ==> old(self).result_wf((#[trigger] results@[i])@),
        ensures
            final(self).inv(),
            final(self).agents@ == old(self).agents@,
            final(self).round == old(self).round,
            final(self).max_rounds == old(self).max_rounds,
            final(self).num_match_per_pair == old(self).num_match_per_pair,
            final(self).bye_history@ == old(self).bye_history@,
            final(self).scores@ == credit_groups(
                old(self).scores@,
                ids_of(old(self).agents@),
                groups_of(results@.map_values(|v: MatchResult| v@)),
            ),
            advs_view(final(self).adversaries@) == advs_groups(
                advs_view(old(self).adversaries@),
                ids_of(old(self).agents@),
                groups_of(results@.map_values(|v: MatchResult| v@)),
            ),
    {
        let ghost rseq = results@.map_values(|v: MatchResult| v@);
        let ghost ids = ids_of(self.agents@);
        // 1. Aggregate the batch per unordered pair.
        let mut groups: Vec<(u32, u32, i128, i128)> = Vec::new();
        let num_results = results.len();
        let mut i: usize = 0;
        proof {
            assert(rseq.take(0) =~= Seq::<Seq<(Agent, i64)>>::empty());
            assert(groups128_view(groups@) =~= Seq::<(u32, u32, int, int)>::empty());
        }
        while i < num_results
            invariant
                num_results == results@.len(),
                rseq == results@.map_values(|v: MatchResult| v@),
                ids == ids_of(self.agents@),
                i <= num_results,
                self.inv(),
                forall|t: int|
                    0 <= t < results@.len() ==> old(self).result_wf((#[trigger] results@[t])@),
                self.agents@ == old(self).agents@,
                *self == *old(self),
                groups128_view(groups@) == groups_of(rseq.take(i as int)),
                forall|t: int|
                    0 <= t < groups@.len() ==> (#[trigger] groups@[t]).0 < groups@[t].1
                        && roster_has_id(self.agents@, groups@[t].0) && roster_has_id(
                        self.agents@,
                        groups@[t].1,
                    ),
                forall|t: int|
                    0 <= t < groups@.len() ==> -((i as int) * 0x8000000000000000) <= (
                    #[trigger] groups@[t]).2 <= (i as int) * 0x8000000000000000 && -((i as int)
                        * 0x8000000000000000) <= groups@[t].3 <= (i as int) * 0x8000000000000000,
            decreases num_results - i,
        {
            let r: &MatchResult = &results[i];
            proof {
                assert(rseq[i as int] == r@);
                assert(old(self).result_wf(r@));
            }
            let (lo, hi, sa, sb) = if r[0].0.id < r[1].0.id {
                (r[0].0.id, r[1].0.id, r[0].1, r[1].1)
            } else {
                (r[1].0.id, r[0].0.id, r[1].1, r[0].1)
            };
            proof {
                assert(lo == pair_lo(r@) && hi == pair_hi(r@));
                assert(sa as int == pair_lo_score(r@) && sb as int == pair_hi_score(r@));
            }
            let mut j: usize = 0;
            while j < groups.len() && !(groups[j].0 == lo && groups[j].1 == hi)
                invariant
                    j <= groups@.len(),
                    forall|t: int|
                        0 <= t < j ==> !((#[trigger] groups@[t]).0 == lo && groups@[t].1 == hi),
                decreases groups@.len() - j,
            {
                j += 1;
            }
            let found = j < groups.len();
            let ghost pre = groups128_view(groups@);
            proof {
                assert(forall|t: int|
                    0 <= t < pre.len() ==> #[trigger] pre[t] == group_entry_view(groups@[t]));
                assert(forall|t: int|
                    0 <= t < j ==> !((#[trigger] pre[t]).0 == lo && pre[t].1 == hi));
            }
            if found {
                proof {
                    assert(pre[j as int].0 == lo && pre[j as int].1 == hi);
                    lemma_find_group_scan(pre, lo, hi, j as int);
                    assert((i as int) * 0x8000000000000000 + 0x8000000000000000 == ((i + 1) as int)
                        * 0x8000000000000000) by (nonlinear_arith);
                    assert(((i + 1) as int) * 0x8000000000000000 <= 0xffffffffffffffff
                        * 0x8000000000000000) by (nonlinear_arith)
                        requires
                            (i + 1) as int <= 0xffffffffffffffff,
                    ;
                }
                let g = groups[j];
                let new_a: i128 = g.2 + (sa as i128);
                let new_b: i128 = g.3 + (sb as i128);
                groups.set(j, (lo, hi, new_a, new_b));
                proof {
                    assert(pre[j as int].2 == g.2 as int && pre[j as int].3 == g.3 as int);
                    assert(forall|t: int|
                        0 <= t < groups@.len() ==> #[trigger] groups128_view(groups@)[t]
                            == group_entry_view(groups@[t]));
                    assert(groups128_view(groups@) =~= upsert_group(
                        pre,
                        lo,
                        hi,
                        sa as int,
                        sb as int,
                    ));
                }
            } else {
                proof {
                    lemma_find_group_scan(pre, lo, hi, j as int);
                }
                groups.push((lo, hi, sa as i128, sb as i128));
                proof {
                    assert(forall|t: int|
                        0 <= t < groups@.len() ==> #[trigger] groups128_view(groups@)[t]
                            == group_entry_view(groups@[t]));
                    assert(groups128_view(groups@) =~= upsert_group(
                        pre,
                        lo,
                        hi,
                        sa as int,
                        sb as int,
                    ));
                }
            }
            proof {
                assert(rseq.take(i + 1).drop_last() =~= rseq.take(i as int));
                assert(rseq.take(i + 1).last() == rseq[i as int]);
                assert((i as int) * 0x8000000000000000 + 0x8000000000000000 == ((i + 1) as int)
                    * 0x8000000000000000) by (nonlinear_arith);
            }
            i += 1;
        }
        proof {
            assert(rseq.take(num_results as int) =~= rseq);
        }
        let ghost gs = groups_of(rseq);
        // 2. Credit each aggregated pair once.
        let ghost scores0 = self.scores@;
        let ghost advs0 = advs_view(self.adversaries@);
        let num_groups = groups.len();
        let mut t: usize = 0;
        proof {
            assert(groups128_view(groups@).take(0) =~= Seq::<(u32, u32, int, int)>::empty());
        }
        while t < num_groups
            invariant
                num_groups == groups@.len(),
                ids == ids_of(self.agents@),
                t <= num_groups,
                self.inv(),
                self.agents@ == old(self).agents@,
                self.round == old(self).round,
                self.max_rounds == old(self).max_rounds,
                self.num_match_per_pair == old(self).num_match_per_pair,
                self.bye_history@ == old(self).bye_history@,
                scores0 == old(self).scores@,
                advs0 == advs_view(old(self).adversaries@),
                gs == groups128_view(groups@),
                forall|t: int|
                    0 <= t < groups@.len() ==> #[trigger] gs[t] == group_entry_view(groups@[t]),
                forall|k: int|
                    0 <= k < groups@.len() ==> (#[trigger] groups@[k]).0 < groups@[k].1
                        && roster_has_id(self.agents@, groups@[k].0) && roster_has_id(
                        self.agents@,
                        groups@[k].1,
                    ),
                self.scores@ == credit_groups(scores0, ids, gs.take(t as int)),
                advs_view(self.adversaries@) == advs_groups(advs0, ids, gs.take(t as int)),
            decreases num_groups - t,
        {
            let ghost pre_scores = self.scores@;
            let ghost pre_advs = advs_view(self.adversaries@);
            let (lo, hi, sa, sb) = groups[t];
            let seat_lo = find_seat(&self.agents, lo);
            let seat_hi = find_seat(&self.agents, hi);
            proof {
                assert(ids[seat_lo as int] == lo && ids[seat_hi as int] == hi);
                assert(seat_lo != seat_hi);
            }
            let s_lo = self.scores[seat_lo];
            let s_hi = self.scores[seat_hi];
            let new_lo = if sa == sb {
                TwoPlayersGameScore {
                    num_draw: if s_lo.num_draw == u32::MAX {
                        s_lo.num_draw
                    } else {
                        s_lo.num_draw + 1
                    },
                    ..s_lo
                }
            } else if sa > sb {
                TwoPlayersGameScore {
                    num_win: if s_lo.num_win == u32::MAX {
                        s_lo.num_win
                    } else {
                        s_lo.num_win + 1
                    },
                    ..s_lo
                }
            } else {
                TwoPlayersGameScore {
                    num_lose: if s_lo.num_lose == u32::MAX {
                        s_lo.num_lose
                    } else {
                        s_lo.num_lose + 1
                    },
                    ..s_lo
                }
            };
            let new_hi = if sa == sb {
                TwoPlayersGameScore {
                    num_draw: if s_hi.num_draw == u32::MAX {
                        s_hi.num_draw
                    } else {
                        s_hi.num_draw + 1
                    },
                    ..s_hi
                }
            } else if sb > sa {
                TwoPlayersGameScore {
                    num_win: if s_hi.num_win == u32::MAX {
                        s_hi.num_win
                    } else {
                        s_hi.num_win + 1
                    },
                    ..s_hi
                }
            } else {
                TwoPlayersGameScore {
                    num_lose: if s_hi.num_lose == u32::MAX {
                        s_hi.num_lose
                    } else {
                        s_hi.num_lose + 1
                    },
                    ..s_hi
                }
            };
            self.scores.set(seat_lo, new_lo);
            self.scores.set(seat_hi, new_hi);
            // Record the two agents in each other's adversary lists.
            let mut adv_lo = self.adversaries[seat_lo].clone();
            if !ids_contain(&adv_lo, hi) {
                adv_lo.push(hi);
            }
            self.adversaries.set(seat_lo, adv_lo);
            let mut adv_hi = self.adversaries[seat_hi].clone();
            if !ids_contain(&adv_hi, lo) {
                adv_hi.push(lo);
            }
            self.adversaries.set(seat_hi, adv_hi);
            proof {
                let g = gs[t as int];
                assert(gs[t as int] == group_entry_view(groups@[t as int]));
                assert(g == (lo, hi, sa as int, sb as int));
                assert forall|k: int| 0 <= k < self.scores@.len() implies #[trigger] self
                    .scores@[k] == credit_one_pair(pre_scores, ids, g)[k] by {
                    if k != seat_lo && k != seat_hi {
                        assert(self.agents@[k].id != lo && self.agents@[k].id != hi);
                    }
                }
                assert(self.scores@ =~= credit_one_pair(pre_scores, ids, g));
                assert forall|k: int| 0 <= k < self.adversaries@.len() implies advs_view(
                    self.adversaries@,
                )[k] == advs_one_pair(pre_advs, ids, g.0, g.1)[k] by {
                    if k != seat_lo && k != seat_hi {
                        assert(self.agents@[k].id != lo && self.agents@[k].id != hi);
                    }
                }
                assert(advs_view(self.adversaries@) =~= advs_one_pair(pre_advs, ids, g.0, g.1));
                assert(gs.take(t + 1).drop_last() =~= gs.take(t as int));
                assert(gs.take(t + 1).last() == gs[t as int]);
            }
            t += 1;
        }
        proof {
            assert(gs.take(num_groups as int) =~= gs);
        }
    }

    /// Pairs the players for the next round: sorted by points, grouped by
    /// equal points, paired greedily within a group against the first
    /// not-yet-met candidate, with unpaired players floating into the
    /// next group.  Whoever stays unpaired receives a bye: a free win,
    /// recorded in the bye history.  Returns the seat pairs and the seats
    /// that got a bye.
    fn create_next_round_pairings(&mut self) -> (out: (Vec<(usize, usize)>, Vec<usize>))
        requires
            old(self).inv(),
        ensures
            final(self).inv(),
            final(self).agents@ == old(self).agents@,
            final(self).round == old(self).round,
            final(self).max_rounds == old(self).max_rounds,
            final(self).num_match_per_pair == old(self).num_match_per_pair,
            final(self).adversaries@ == old(self).adversaries@,
            ({
                let pairs = out.0@;
                let byes = out.1@;
                let n = old(self).agents@.len();
                &&& forall|k: int|
                    0 <= k < pairs.len() ==> (#[trigger] pairs[k]).0 < n && pairs[k].1 < n
                        && pairs[k].0 != pairs[k].1 && old(self).agents@[pairs[k].0 as int].id
                        != old(self).agents@[pairs[k].1 as int].id && !old(self).spec_has_played(
                        old(self).agents@[pairs[k].0 as int].id,
                        old(self).agents@[pairs[k].1 as int].id,
                    )
                &&& pairs_seat_disjoint(pairs)
                &&& byes.no_duplicates()
                &&& forall|t: int|
                    0 <= t < byes.len() ==> (#[trigger] byes[t]) < n && !in_pairs(pairs, byes[t])
                &&& forall|s: usize| s < n ==> in_pairs(pairs, s) || byes.contains(s)
                &&& forall|t1: int, t2: int|
                    0 <= t1 < t2 < byes.len() ==> old(self).spec_has_played(
                        old(self).agents@[(#[trigger] byes[t1]) as int].id,
                        old(self).agents@[(#[trigger] byes[t2]) as int].id,
                    )
                &&& final(self).scores@.len() == n
                &&& forall|s: int|
                    0 <= s < n && byes.contains(s as usize) ==> #[trigger] final(self).scores@[s]
                        == (TwoPlayersGameScore {
                        num_win: sat_inc(old(self).scores@[s].num_win),
                        ..old(self).scores@[s]
                    })
                &&& forall|s: int|
                    0 <= s < n && !byes.contains(s as usize) ==> #[trigger] final(self).scores@[s]
                        == old(self).scores@[s]
                &&& final(self).bye_history@ == record_byes(
                    old(self).bye_history@,
                    old(self).agents@,
                    byes,
                )
            }),
    {
        let n = self.agents.len();
        // 1. Points per seat.
        let mut pts: Vec<u64> = Vec::new();
        let mut i: usize = 0;
        while i < n
            invariant
                n == self.agents@.len(),
                self.inv(),
                i <= n,
                pts@.len() == i,
            decreases n - i,
        {
            let s = self.scores[i];
            pts.push(2 * (s.num_win as u64) + (s.num_draw as u64));
            i += 1;
        }
        // 2. Seats sorted by points, highest first, stable.
        let mut order: Vec<usize> = Vec::new();
        let mut i2: usize = 0;
        while i2 < n
            invariant
                n == self.agents@.len(),
                pts@.len() == n,
                i2 <= n,
                order@.len() == i2,
                order@.no_duplicates(),
                forall|t: int| 0 <= t < order@.len() ==> (#[trigger] order@[t]) < i2,
                forall|s: usize| s < i2 ==> order@.contains(s),
                forall|t1: int, t2: int|
                    0 <= t1 < t2 < order@.len() ==> pts@[order@[t1] as int] >= pts@[order@[t2] as int],
            decreases n - i2,
        {
            let mut j: usize = 0;
            while j < order.len() && pts[order[j]] >= pts[i2]
                invariant
                    n == self.agents@.len(),
                    pts@.len() == n,
                    i2 < n,
                    j <= order@.len(),
                    forall|t: int| 0 <= t < order@.len() ==> (#[trigger] order@[t]) < i2,
                    forall|t: int| 0 <= t < j ==> pts@[(#[trigger] order@[t]) as int] >= pts@[i2 as int],
                decreases order@.len() - j,
            {
                j += 1;
            }
            let ghost pre_order = order@;
            order.insert(j, i2);
            proof {
                assert(order@ == pre_order.insert(j as int, i2));
                assert(forall|t: int| 0 <= t < j ==> order@[t] == pre_order[t]);
                assert(order@[j as int] == i2);
                assert(forall|t: int|
                    j < t < order@.len() ==> order@[t] == pre_order[t - 1]);
                assert forall|t1: int, t2: int|
                    0 <= t1 < t2 < order@.len() implies pts@[order@[t1] as int] >= pts@[order@[t2] as int] by {
                    if t1 < j && t2 == j {
                    } else if t1 == j && t2 > j {
                        assert(pts@[pre_order[t2 - 1] as int] <= pts@[pre_order[j as int] as int]);
                    }
                }
                assert forall|s: usize| s < i2 + 1 implies order@.contains(s) by {
                    if s < i2 {
                        assert(pre_order.contains(s));
                        let w = choose|w: int|
                            0 <= w < pre_order.len() && #[trigger] pre_order[w] == s;
                        if w < j {
                            assert(order@[w] == s);
                            assert(order@.contains(s));
                        } else {
                            assert(order@[w + 1] == pre_order[w]);
                            assert(order@.contains(s));
                        }
                    } else {
                        assert(order@[j as int] == s);
                        assert(order@.contains(s));
                    }
                }
                assert forall|t1: int, t2: int|
                    0 <= t1 < order@.len() && 0 <= t2 < order@.len() && t1 != t2 implies order@[t1]
                    != order@[t2] by {
                    if t1 != j && t2 != j {
                        let u1: int = if t1 < j {
                            t1
                        } else {
                            t1 - 1
                        };
                        let u2: int = if t2 < j {
                            t2
                        } else {
                            t2 - 1
                        };
                        assert(order@[t1] == pre_order[u1] && order@[t2] == pre_order[u2]);
                    } else {
                        let other: int = if t1 == j {
                            t2
                        } else {
                            t1
                        };
                        let u: int = if other < j {
                            other
                        } else {
                            other - 1
                        };
                        assert(order@[other] == pre_order[u]);
                        assert(pre_order[u] < i2);
                    }
                }
            }
            i2 += 1;
        }
        // 3. Split the sorted seats into groups of equal points.
        let mut groups: Vec<Vec<usize>> = Vec::new();
        let mut cur: Vec<usize> = Vec::new();
        let mut p: usize = 0;
        proof {
            assert(seats_flat(groups_view(groups@)) + cur@ =~= order@.take(0));
        }
        while p < n
            invariant
                n == self.agents@.len(),
                pts@.len() == n,
                order@.len() == n,
                order@.no_duplicates(),
                forall|t: int| 0 <= t < order@.len() ==> (#[trigger] order@[t]) < n,
                forall|s: usize| s < n ==> order@.contains(s),
                p <= n,
                forall|t: int| 0 <= t < cur@.len() ==> (#[trigger] cur@[t]) < n,
                seats_flat(groups_view(groups@)) + cur@ == order@.take(p as int),
            decreases n - p,
        {
            let seat = order[p];
            if cur.len() > 0 && pts[cur[cur.len() - 1]] != pts[seat] {
                let full = cur;
                cur = Vec::new();
                let ghost pre_groups = groups@;
                groups.push(full);
                proof {
                    let m = groups_view(groups@);
                    assert(m.last() == full@);
                    assert(m.drop_last() =~= groups_view(pre_groups));
                    lemma_seats_flat_push(m, full@);
                    assert(seats_flat(m) == seats_flat(groups_view(pre_groups)) + full@);
                    assert(seats_flat(m) + cur@ =~= order@.take(p as int));
                }
            }
            cur.push(seat);
            proof {
                assert(order@.take(p + 1).drop_last() =~= order@.take(p as int));
                assert(seats_flat(groups_view(groups@)) + cur@ =~= order@.take(
                    p + 1,
                ));
            }
            p += 1;
        }
        if cur.len() > 0 {
            let full = cur;
            let ghost pre_groups = groups@;
            groups.push(full);
            proof {
                let m = groups_view(groups@);
                assert(m.last() == full@);
                assert(m.drop_last() =~= groups_view(pre_groups));
                lemma_seats_flat_push(m, full@);
                assert(seats_flat(m) == seats_flat(groups_view(pre_groups)) + full@);
                assert(order@.take(n as int) =~= order@);
                assert(seats_flat(m) =~= order@);
            }
        } else {
            proof {
                assert(order@.take(n as int) =~= order@);
                assert(seats_flat(groups_view(groups@)) + Seq::<usize>::empty()
                    =~= seats_flat(groups_view(groups@)));
                assert(seats_flat(groups_view(groups@)) =~= order@);
            }
        }
        // 4. Greedy pairing per group, floaters descending into the next.
        let (pairs, byes) = self.pair_groups_greedy(&groups, Ghost(order@));
        // 5. A bye is a free win, remembered so that nobody gets two
        // lightly.
        let mut b: usize = 0;
        let ghost scores0 = self.scores@;
        let ghost byes0 = self.bye_history@;
        while b < byes.len()
            invariant
                n == self.agents@.len(),
                self.inv(),
                self.agents@ == old(self).agents@,
                self.round == old(self).round,
                self.max_rounds == old(self).max_rounds,
                self.num_match_per_pair == old(self).num_match_per_pair,
                self.adversaries@ == old(self).adversaries@,
                scores0.len() == n,
                self.scores@.len() == n,
                b <= byes@.len(),
                byes@.no_duplicates(),
                forall|t: int| 0 <= t < byes@.len() ==> (#[trigger] byes@[t]) < n,
                forall|s: int|
                    0 <= s < n && byes@.take(b as int).contains(s as usize)
                        ==> #[trigger] self.scores@[s] == (TwoPlayersGameScore {
                        num_win: sat_inc(scores0[s].num_win),
                        ..scores0[s]
                    }),
                forall|s: int|
                    0 <= s < n && !byes@.take(b as int).contains(s as usize)
                        ==> #[trigger] self.scores@[s] == scores0[s],
                self.bye_history@ == record_byes(byes0, self.agents@, byes@.take(b as int)),
            decreases byes@.len() - b,
        {
            let seat = byes[b];
            let s = self.scores[seat];
            proof {
                assert(!byes@.take(b as int).contains(seat)) by {
                    if byes@.take(b as int).contains(seat) {
                        let w = choose|w: int|
                            0 <= w < b && #[trigger] byes@.take(b as int)[w] == seat;
                        assert(byes@[w] == byes@[b as int]);
                    }
                }
            }
            self.scores.set(
                seat,
                TwoPlayersGameScore {
                    num_win: if s.num_win == u32::MAX {
                        s.num_win
                    } else {
                        s.num_win + 1
                    },
                    ..s
                },
            );
            let id = self.agents[seat].id;
            let mut present = false;
            let mut q: usize = 0;
            while q < self.bye_history.len()
                invariant
                    q <= self.bye_history@.len(),
                    present == exists|w: int|
                        0 <= w < q && #[trigger] self.bye_history@[w] == id,
                decreases self.bye_history@.len() - q,
            {
                if self.bye_history[q] == id {
                    present = true;
                }
                q += 1;
            }
            let ghost hist_pre = self.bye_history@;
            if !present {
                self.bye_history.push(id);
            }
            proof {
                assert(self.agents@[byes@[b as int] as int].id == id);
                assert(byes@.take(b + 1).drop_last() =~= byes@.take(b as int));
                assert(byes@.take(b + 1).last() == byes@[b as int]);
                if present {
                    assert(hist_pre.contains(id));
                    assert(self.bye_history@ =~= insert_id(hist_pre, id));
                } else {
                    assert(!hist_pre.contains(id)) by {
                        if hist_pre.contains(id) {
                            let w = choose|w: int|
                                0 <= w < hist_pre.len() && #[trigger] hist_pre[w] == id;
                        }
                    }
                    assert(self.bye_history@ =~= insert_id(hist_pre, id));
                }
                assert(self.bye_history@ == record_byes(byes0, self.agents@, byes@.take(b + 1)));
                assert forall|s2: int|
                    0 <= s2 < n && byes@.take(b + 1).contains(s2 as usize) implies #[trigger] self
                    .scores@[s2] == (TwoPlayersGameScore {
                    num_win: sat_inc(scores0[s2].num_win),
                    ..scores0[s2]
                }) by {
                    if s2 != seat {
                        assert(byes@.take(b + 1).drop_last() =~= byes@.take(b as int));
                        let w = choose|w: int|
                            0 <= w < b + 1 && #[trigger] byes@.take(b + 1)[w] == s2 as usize;
                        assert(byes@[w] == s2 as usize);
                        assert(w < b);
                        assert(byes@.take(b as int)[w] == s2 as usize);
                    }
                }
                assert forall|s2: int|
                    0 <= s2 < n && !byes@.take(b + 1).contains(s2 as usize) implies #[trigger] self
                    .scores@[s2] == scores0[s2] by {
                    assert(s2 != seat) by {
                        assert(byes@.take(b + 1)[b as int] == seat);
                    }
                    if byes@.take(b as int).contains(s2 as usize) {
                        let w = choose|w: int|
                            0 <= w < b && #[trigger] byes@.take(b as int)[w] == s2 as usize;
                        assert(byes@.take(b + 1)[w] == s2 as usize);
                    }
                }
            }
            b += 1;
        }
        proof {
            assert(byes@.take(byes@.len() as int) =~= byes@);
        }
        (pairs, byes)
    }
}

/// True when the id list holds `id`.
fn ids_contain(v: &Vec<u32>, id: u32) -> (r: bool)
    ensures
        r == v@.contains(id),
{
    let mut i: usize = 0;
    while i < v.len()
        invariant
            i <= v@.len(),
            forall|k: int| 0 <= k < i ==> v@[k] != id,
        decreases v@.len() - i,
    {
        if v[i] == id {
            proof {
                assert(v@.contains(id));
            }
            return true;
        }
        i += 1;
    }
    false
}

/// Two duplicate-free lists with no common element concatenate into a
/// duplicate-free list.
proof fn lemma_concat_no_dup_intro(a: Seq<usize>, b: Seq<usize>)
    requires
        a.no_duplicates(),
        b.no_duplicates(),
        forall|x: usize| a.contains(x) ==> !b.contains(x),
    ensures
        (a + b).no_duplicates(),
{
    assert forall|t1: int, t2: int|
        0 <= t1 < (a + b).len() && 0 <= t2 < (a + b).len() && t1 != t2 implies (a + b)[t1] != (a
        + b)[t2] by {
        if t1 < a.len() && t2 >= a.len() {
            assert(a.contains(a[t1]));
            assert(b.contains(b[t2 - a.len()]));
        } else if t1 >= a.len() && t2 < a.len() {
            assert(a.contains(a[t2]));
            assert(b.contains(b[t1 - a.len()]));
        }
    }
}

impl SwissTournament {
    /// Greedy pairing over the point groups: within each group (joined by
    /// the floaters of the one before) every seat is paired with the
    /// first later candidate it has not met; the rest float on, and
    /// whoever is left after the last group is returned as the byes.
    fn pair_groups_greedy(&self, groups: &Vec<Vec<usize>>, order: Ghost<Seq<usize>>) -> (out: (
        Vec<(usize, usize)>,
        Vec<usize>,
    ))
        requires
            self.inv(),
            order@.no_duplicates(),
            forall|t: int| 0 <= t < order@.len() ==> (#[trigger] order@[t]) < self.agents@.len(),
            forall|s: usize| s < self.agents@.len() ==> order@.contains(s),
            seats_flat(groups_view(groups@)) == order@,
        ensures
            ({
                let pairs = out.0@;
                let byes = out.1@;
                let n = self.agents@.len();
                &&& forall|k: int|
                    0 <= k < pairs.len() ==> (#[trigger] pairs[k]).0 < n && pairs[k].1 < n
                        && pairs[k].0 != pairs[k].1 && self.agents@[pairs[k].0 as int].id
                        != self.agents@[pairs[k].1 as int].id && !self.spec_has_played(
                        self.agents@[pairs[k].0 as int].id,
                        self.agents@[pairs[k].1 as int].id,
                    )
                &&& pairs_seat_disjoint(pairs)
                &&& byes.no_duplicates()
                &&& forall|t: int|
                    0 <= t < byes.len() ==> (#[trigger] byes[t]) < n && !in_pairs(pairs, byes[t])
                &&& forall|s: usize| s < n ==> in_pairs(pairs, s) || byes.contains(s)
                &&& forall|t1: int, t2: int|
                    0 <= t1 < t2 < byes.len() ==> self.spec_has_played(
                        self.agents@[(#[trigger] byes[t1]) as int].id,
                        self.agents@[(#[trigger] byes[t2]) as int].id,
                    )
            }),
    {
        let n = self.agents.len();
        let ghost gseq = groups_view(groups@);
        let mut pairs: Vec<(usize, usize)> = Vec::new();
        let mut carried: Vec<usize> = Vec::new();
        let mut g: usize = 0;
        proof {
            assert(gseq.skip(0) =~= gseq);
            assert(gseq.subrange(0, 0) =~= Seq::<Seq<usize>>::empty());
            assert(carried@ + seats_flat(gseq) =~= seats_flat(gseq));
        }
        while g < groups.len()
            invariant
                n == self.agents@.len(),
                self.inv(),
                gseq == groups_view(groups@),
                seats_flat(gseq) == order@,
                order@.no_duplicates(),
                forall|t: int| 0 <= t < order@.len() ==> (#[trigger] order@[t]) < n,
                g <= groups@.len(),
                forall|k: int|
                    0 <= k < pairs@.len() ==> (#[trigger] pairs@[k]).0 < n && pairs@[k].1 < n
                        && pairs@[k].0 != pairs@[k].1 && self.agents@[pairs@[k].0 as int].id
                        != self.agents@[pairs@[k].1 as int].id && !self.spec_has_played(
                        self.agents@[pairs@[k].0 as int].id,
                        self.agents@[pairs@[k].1 as int].id,
                    ),
                carried@.no_duplicates(),
                pairs_seat_disjoint(pairs@),
                forall|t: int|
                    0 <= t < carried@.len() ==> (#[trigger] carried@[t]) < n && !in_pairs(
                        pairs@,
                        carried@[t],
                    ),
                forall|u1: int, u2: int|
                    0 <= u1 < u2 < carried@.len() ==> self.spec_has_played(
                        self.agents@[(#[trigger] carried@[u1]) as int].id,
                        self.agents@[(#[trigger] carried@[u2]) as int].id,
                    ),
                (carried@ + seats_flat(gseq.skip(g as int))).no_duplicates(),
                forall|x: usize|
                    seats_flat(gseq.skip(g as int)).contains(x) ==> !in_pairs(pairs@, x),
                forall|x: usize|
                    seats_flat(gseq.subrange(0, g as int)).contains(x) ==> in_pairs(pairs@, x)
                        || carried@.contains(x),
            decreases groups@.len() - g,
        {
            let ghost carried_in = carried@;
            let ghost rest = seats_flat(gseq.skip(g + 1));
            // Candidates: the group's members first, then the floaters.
            let mut cand: Vec<usize> = groups[g].clone();
            proof {
                assert(cand@ =~= gseq[g as int]);
                assert(gseq.skip(g as int)[0] == gseq[g as int]);
                assert(gseq.skip(g as int).drop_first() =~= gseq.skip(g + 1));
                assert(seats_flat(gseq.skip(g as int)) == gseq[g as int] + rest);
            }
            cand.append(&mut carried);
            proof {
                lemma_concat_no_dup(carried_in, gseq[g as int] + rest);
                lemma_concat_no_dup(gseq[g as int], rest);
                assert forall|x: usize| gseq[g as int].contains(x) implies !carried_in.contains(
                    x,
                ) by {
                    if carried_in.contains(x) {
                        let w = choose|w: int|
                            0 <= w < gseq[g as int].len() && #[trigger] gseq[g as int][w] == x;
                        assert((gseq[g as int] + rest)[w] == x);
                        assert((gseq[g as int] + rest).contains(x));
                    }
                }
                lemma_concat_no_dup_intro(gseq[g as int], carried_in);
                assert(cand@ == gseq[g as int] + carried_in);
                assert(cand@.no_duplicates());
                assert forall|t: int| 0 <= t < cand@.len() implies (#[trigger] cand@[t]) < n
                    && !in_pairs(pairs@, cand@[t]) && !rest.contains(cand@[t]) by {
                    let x = cand@[t];
                    if t < gseq[g as int].len() {
                        assert(gseq[g as int][t] == x);
                        assert(seats_flat(gseq.skip(g as int)).contains(x)) by {
                            assert((gseq[g as int] + rest)[t] == x);
                        }
                        lemma_seats_flat_skip_contains(gseq, g as int, x);
                        assert(order@.contains(x));
                        let v = choose|v: int| 0 <= v < order@.len() && #[trigger] order@[v] == x;
                        assert(x < n);
                        assert(!in_pairs(pairs@, x));
                        assert(!rest.contains(x)) by {
                            if rest.contains(x) {
                                let w = choose|w: int|
                                    0 <= w < rest.len() && #[trigger] rest[w] == x;
                                assert((gseq[g as int] + rest)[gseq[g as int].len() + w] == x);
                            }
                        }
                    } else {
                        assert(carried_in[t - gseq[g as int].len()] == x);
                        assert(carried_in.contains(x));
                        assert(!rest.contains(x)) by {
                            if rest.contains(x) {
                                assert((gseq[g as int] + rest).contains(x)) by {
                                    let w = choose|w: int|
                                        0 <= w < rest.len() && #[trigger] rest[w] == x;
                                    assert((gseq[g as int] + rest)[gseq[g as int].len() + w] == x);
                                }
                            }
                        }
                    }
                }
            }
            let cand_len = cand.len();
            let mut flags: Vec<bool> = Vec::new();
            let mut fi: usize = 0;
            while fi < cand_len
                invariant
                    fi <= cand_len,
                    flags@.len() == fi,
                    forall|t: int| 0 <= t < fi ==> !(#[trigger] flags@[t]),
                decreases cand_len - fi,
            {
                flags.push(false);
                fi += 1;
            }
            proof {
                // Seats of later groups are neither candidates nor paired.
                assert forall|x: usize| rest.contains(x) implies !in_pairs(pairs@, x) by {
                    let w = choose|w: int| 0 <= w < rest.len() && #[trigger] rest[w] == x;
                    assert(seats_flat(gseq.skip(g as int)).contains(x)) by {
                        assert((gseq[g as int] + rest)[gseq[g as int].len() + w] == x);
                    }
                }
                assert forall|x: usize| rest.contains(x) implies !cand@.contains(x) by {
                    if cand@.contains(x) {
                        let w = choose|w: int| 0 <= w < cand@.len() && #[trigger] cand@[w] == x;
                        assert(!rest.contains(cand@[w]));
                    }
                }
                // Entering the greedy loop: everything seen so far is
                // paired or sits unflagged among the candidates.
                assert forall|x: usize|
                    seats_flat(gseq.subrange(0, g as int)).contains(x) || gseq[g as int].contains(
                        x,
                    ) implies in_pairs(pairs@, x) || exists|t: int|
                        0 <= t < cand@.len() && !flags@[t] && #[trigger] cand@[t] == x by {
                    if !in_pairs(pairs@, x) {
                        if gseq[g as int].contains(x) {
                            let w = choose|w: int|
                                0 <= w < gseq[g as int].len() && #[trigger] gseq[g as int][w] == x;
                            assert(cand@[w] == x);
                            assert(!flags@[w]);
                        } else {
                            assert(carried_in.contains(x));
                            let w = choose|w: int|
                                0 <= w < carried_in.len() && #[trigger] carried_in[w] == x;
                            assert(cand@[gseq[g as int].len() + w] == x);
                            assert(!flags@[gseq[g as int].len() + w]);
                        }
                    }
                }
            }
            // Greedy: pair each unflagged candidate with the first later
            // unflagged candidate it has not met.
            let mut i: usize = 0;
            while i < cand_len
                invariant
                    n == self.agents@.len(),
                    self.inv(),
                    cand_len == cand@.len(),
                    flags@.len() == cand_len,
                    i <= cand_len,
                    cand@.no_duplicates(),
                    forall|t: int| 0 <= t < cand@.len() ==> (#[trigger] cand@[t]) < n,
                    forall|k: int|
                        0 <= k < pairs@.len() ==> (#[trigger] pairs@[k]).0 < n && pairs@[k].1 < n
                            && pairs@[k].0 != pairs@[k].1 && self.agents@[pairs@[k].0 as int].id
                            != self.agents@[pairs@[k].1 as int].id && !self.spec_has_played(
                            self.agents@[pairs@[k].0 as int].id,
                            self.agents@[pairs@[k].1 as int].id,
                        ),
                    pairs_seat_disjoint(pairs@),
                    forall|t: int|
                        0 <= t < cand@.len() && !flags@[t] ==> !in_pairs(
                            pairs@,
                            #[trigger] cand@[t],
                        ),
                    forall|t1: int, t2: int|
                        0 <= t1 < i && t1 < t2 < cand@.len() && !flags@[t1] && !flags@[t2]
                            ==> self.spec_has_played(
                            self.agents@[(#[trigger] cand@[t1]) as int].id,
                            self.agents@[(#[trigger] cand@[t2]) as int].id,
                        ),
                    forall|x: usize| rest.contains(x) ==> !cand@.contains(x),
                    forall|x: usize| rest.contains(x) ==> !in_pairs(pairs@, x),
                    forall|x: usize|
                        seats_flat(gseq.subrange(0, g as int)).contains(x) || gseq[g as int].contains(
                            x,
                        ) ==> in_pairs(pairs@, x) || exists|t: int|
                            0 <= t < cand@.len() && !flags@[t] && #[trigger] cand@[t] == x,
                decreases cand_len - i,
            {
                if !flags[i] {
                    let a_seat = cand[i];
                    let mut j: usize = i + 1;
                    let mut match_j: usize = cand_len;
                    while j < cand_len
                        invariant
                            n == self.agents@.len(),
                            self.inv(),
                            cand_len == cand@.len(),
                            flags@.len() == cand_len,
                            i < cand_len,
                            i < j <= cand_len,
                            a_seat == cand@[i as int],
                            a_seat < n,
                            forall|t: int| 0 <= t < cand@.len() ==> (#[trigger] cand@[t]) < n,
                            match_j == cand_len || (i < match_j < cand_len && !flags@[
                                match_j as int] && !self.spec_has_played(
                                self.agents@[a_seat as int].id,
                                self.agents@[cand@[match_j as int] as int].id,
                            )),
                            match_j == cand_len ==> forall|t: int|
                                i < t < j && !flags@[t] ==> self.spec_has_played(
                                    self.agents@[a_seat as int].id,
                                    self.agents@[(#[trigger] cand@[t]) as int].id,
                                ),
                        decreases cand_len - j,
                    {
                        if match_j == cand_len && !flags[j] {
                            let b_seat = cand[j];
                            let played = self.has_played(
                                &self.agents[a_seat],
                                &self.agents[b_seat],
                            );
                            if !played {
                                match_j = j;
                            }
                        }
                        j += 1;
                    }
                    if match_j < cand_len {
                        // Pair a_seat with the candidate found.
                        let b_seat = cand[match_j];
                        let ghost pairs_pre = pairs@;
                        let ghost flags_pre = flags@;
                        pairs.push((a_seat, b_seat));
                        flags.set(i, true);
                        flags.set(match_j, true);
                        proof {
                            assert(cand@[i as int] != cand@[match_j as int]);
                            assert(self.agents@[a_seat as int].id != self.agents@[b_seat as int].id)
                                by {
                                assert(a_seat < n && b_seat < n);
                            }
                            assert(pairs@[pairs_pre.len() as int] == (a_seat, b_seat));
                            assert(forall|k: int|
                                0 <= k < pairs_pre.len() ==> #[trigger] pairs@[k] == pairs_pre[k]);
                            assert forall|x: usize| in_pairs(pairs@, x) implies in_pairs(
                                pairs_pre,
                                x,
                            ) || x == a_seat || x == b_seat by {
                                let k = choose|k: int|
                                    0 <= k < pairs@.len() && ((#[trigger] pairs@[k]).0 == x
                                        || pairs@[k].1 == x);
                                if k < pairs_pre.len() {
                                    assert(pairs_pre[k].0 == x || pairs_pre[k].1 == x);
                                }
                            }
                            assert forall|x: usize|
                                in_pairs(pairs_pre, x) || x == a_seat || x == b_seat implies
                                in_pairs(pairs@, x) by {
                                if in_pairs(pairs_pre, x) {
                                    let k = choose|k: int|
                                        0 <= k < pairs_pre.len() && ((#[trigger] pairs_pre[k]).0
                                            == x || pairs_pre[k].1 == x);
                                    assert(pairs@[k].0 == x || pairs@[k].1 == x);
                                }
                            }
                            // Unflagged candidates other than the two stay unpaired.
                            assert forall|t: int|
                                0 <= t < cand@.len() && !flags@[t] implies !in_pairs(
                                pairs@,
                                #[trigger] cand@[t],
                            ) by {
                                assert(t != i && t != match_j);
                                assert(!flags_pre[t]);
                                assert(cand@[t] != a_seat && cand@[t] != b_seat);
                            }
                            // The seats still to come stay unpaired.
                            assert forall|x: usize| rest.contains(x) implies !in_pairs(
                                pairs@,
                                x,
                            ) by {
                                assert(!cand@.contains(x));
                                assert(cand@[i as int] == a_seat);
                                assert(cand@[match_j as int] == b_seat);
                                assert(cand@.contains(a_seat) && cand@.contains(b_seat));
                            }
                            // No seat joins two pairs: both newcomers were
                            // unpaired, so they differ from every seat
                            // already paired.
                            assert forall|k: int|
                                0 <= k < pairs_pre.len() implies (#[trigger] pairs_pre[k]).0
                                != a_seat && pairs_pre[k].0 != b_seat && pairs_pre[k].1 != a_seat
                                && pairs_pre[k].1 != b_seat by {
                                assert(!in_pairs(pairs_pre, a_seat));
                                assert(!in_pairs(pairs_pre, b_seat));
                                if pairs_pre[k].0 == a_seat || pairs_pre[k].1 == a_seat {
                                    assert(in_pairs(pairs_pre, a_seat));
                                }
                                if pairs_pre[k].0 == b_seat || pairs_pre[k].1 == b_seat {
                                    assert(in_pairs(pairs_pre, b_seat));
                                }
                            }
                            assert forall|k1: int, k2: int|
                                0 <= k1 < pairs@.len() && 0 <= k2 < pairs@.len() && k1
                                != k2 implies (#[trigger] pairs@[k1]).0 != (#[trigger] pairs@[k2]).0
                                && pairs@[k1].0 != pairs@[k2].1 && pairs@[k1].1 != pairs@[k2].0
                                && pairs@[k1].1 != pairs@[k2].1 by {
                                if k1 < pairs_pre.len() && k2 < pairs_pre.len() {
                                    assert(pairs_pre[k1] == pairs@[k1]);
                                    assert(pairs_pre[k2] == pairs@[k2]);
                                }
                            }
                            // Candidates still unflagged had no partner in
                            // the new pair, so the played-each-other record
                            // among them is unchanged.
                            assert forall|t1: int, t2: int|
                                0 <= t1 < i && t1 < t2 < cand@.len() && !flags@[t1]
                                && !flags@[t2] implies self.spec_has_played(
                                self.agents@[(#[trigger] cand@[t1]) as int].id,
                                self.agents@[(#[trigger] cand@[t2]) as int].id,
                            ) by {
                                assert(!flags_pre[t1] && !flags_pre[t2]);
                            }
                            // Coverage: the two paired seats moved from the
                            // candidates into the pairs; the rest keep their
                            // witnesses.
                            assert forall|x: usize|
                                seats_flat(gseq.subrange(0, g as int)).contains(x) || gseq[
                                g as int].contains(x) implies in_pairs(pairs@, x) || exists|t: int|
                                    0 <= t < cand@.len() && !flags@[t] && #[trigger] cand@[t]
                                        == x by {
                                if !in_pairs(pairs@, x) {
                                    assert(!in_pairs(pairs_pre, x));
                                    let t = choose|t: int|
                                        0 <= t < cand@.len() && !flags_pre[t] && #[trigger] cand@[t]
                                            == x;
                                    assert(x != a_seat && x != b_seat);
                                    assert(t != i && t != match_j);
                                    assert(!flags@[t]);
                                }
                            }
                        }
                    } else {
                        proof {
                            // No partner found: the scan covered every later
                            // unflagged candidate and each had been met.
                            assert forall|t2: int|
                                i < t2 < cand@.len() && !flags@[t2] implies self.spec_has_played(
                                self.agents@[cand@[i as int] as int].id,
                                self.agents@[(#[trigger] cand@[t2]) as int].id,
                            ) by {}
                        }
                    }
                }
                i += 1;
            }
            // Whoever is unflagged floats into the next group.
            let mut new_carried: Vec<usize> = Vec::new();
            let ghost mut wits: Seq<int> = Seq::empty();
            let mut j2: usize = 0;
            while j2 < cand_len
                invariant
                    cand_len == cand@.len(),
                    flags@.len() == cand_len,
                    j2 <= cand_len,
                    cand@.no_duplicates(),
                    forall|t: int| 0 <= t < cand@.len() ==> (#[trigger] cand@[t]) < n,
                    forall|t: int|
                        0 <= t < cand@.len() && !flags@[t] ==> !in_pairs(
                            pairs@,
                            #[trigger] cand@[t],
                        ),
                    forall|t1: int, t2: int|
                        0 <= t1 < cand@.len() && t1 < t2 < cand@.len() && !flags@[t1]
                            && !flags@[t2] ==> self.spec_has_played(
                            self.agents@[(#[trigger] cand@[t1]) as int].id,
                            self.agents@[(#[trigger] cand@[t2]) as int].id,
                        ),
                    // Every kept floater remembers which unflagged
                    // candidate it is.
                    wits.len() == new_carried@.len(),
                    forall|t: int|
                        0 <= t < wits.len() ==> 0 <= #[trigger] wits[t] < j2 && !flags@[wits[t]]
                            && new_carried@[t] == cand@[wits[t]],
                    forall|t: int|
                        0 <= t < new_carried@.len() ==> cand@.contains(#[trigger] new_carried@[t]),
                    forall|t: int|
                        0 <= t < new_carried@.len() ==> (#[trigger] new_carried@[t]) < n
                            && !in_pairs(pairs@, new_carried@[t]),
                    new_carried@.no_duplicates(),
                    forall|u1: int, u2: int|
                        0 <= u1 < u2 < new_carried@.len() ==> self.spec_has_played(
                            self.agents@[(#[trigger] new_carried@[u1]) as int].id,
                            self.agents@[(#[trigger] new_carried@[u2]) as int].id,
                        ),
                    forall|t: int|
                        0 <= t < j2 && !flags@[t] ==> new_carried@.contains(#[trigger] cand@[t]),
                decreases cand_len - j2,
            {
                if !flags[j2] {
                    let ghost nc_pre = new_carried@;
                    proof {
                        assert(!new_carried@.contains(cand@[j2 as int])) by {
                            if new_carried@.contains(cand@[j2 as int]) {
                                let w = choose|w: int|
                                    0 <= w < new_carried@.len() && #[trigger] new_carried@[w]
                                        == cand@[j2 as int];
                                assert(cand@[wits[w]] == cand@[j2 as int]);
                                assert(wits[w] != j2);
                            }
                        }
                    }
                    new_carried.push(cand[j2]);
                    proof {
                        wits = wits.push(j2 as int);
                        assert(forall|t: int|
                            0 <= t < nc_pre.len() ==> #[trigger] new_carried@[t] == nc_pre[t]);
                        assert(new_carried@[nc_pre.len() as int] == cand@[j2 as int]);
                        assert(wits[nc_pre.len() as int] == j2 as int);
                        // Earlier floaters have already met the newcomer:
                        // both sat unflagged through the whole greedy pass.
                        assert forall|u1: int, u2: int|
                            0 <= u1 < u2 < new_carried@.len() implies self.spec_has_played(
                            self.agents@[(#[trigger] new_carried@[u1]) as int].id,
                            self.agents@[(#[trigger] new_carried@[u2]) as int].id,
                        ) by {
                            if u2 == nc_pre.len() {
                                assert(0 <= wits[u1] < j2 && !flags@[wits[u1]]);
                                assert(new_carried@[u1] == cand@[wits[u1]]);
                                assert(new_carried@[u2] == cand@[j2 as int]);
                                assert(!flags@[j2 as int]);
                            }
                        }
                        assert forall|t: int|
                            0 <= t < j2 + 1 && !flags@[t] implies new_carried@.contains(
                            #[trigger] cand@[t],
                        ) by {
                            if t < j2 {
                                assert(nc_pre.contains(cand@[t]));
                                let w = choose|w: int|
                                    0 <= w < nc_pre.len() && #[trigger] nc_pre[w] == cand@[t];
                                assert(new_carried@[w] == cand@[t]);
                            } else {
                                assert(new_carried@[nc_pre.len() as int] == cand@[t]);
                            }
                        }
                    }
                } else {
                    proof {
                        assert forall|t: int|
                            0 <= t < j2 + 1 && !flags@[t] implies new_carried@.contains(
                            #[trigger] cand@[t],
                        ) by {
                            assert(t != j2);
                        }
                    }
                }
                j2 += 1;
            }
            carried = new_carried;
            g += 1;
            proof {
                assert(rest =~= seats_flat(gseq.skip(g as int)));
                assert forall|x: usize| carried@.contains(x) implies !rest.contains(x) by {
                    let w = choose|w: int|
                        0 <= w < carried@.len() && #[trigger] carried@[w] == x;
                    assert(cand@.contains(x));
                }
                lemma_concat_no_dup_intro(carried@, seats_flat(gseq.skip(g as int)));
                assert(gseq.subrange(0, g as int).drop_last() =~= gseq.subrange(0, g - 1));
                assert(gseq.subrange(0, g as int).last() == gseq[g - 1]);
                lemma_seats_flat_push(gseq.subrange(0, g as int), gseq[g - 1]);
                assert forall|x: usize|
                    seats_flat(gseq.subrange(0, g as int)).contains(x) implies in_pairs(pairs@, x)
                    || carried@.contains(x) by {
                    let flat = seats_flat(gseq.subrange(0, g - 1)) + gseq[g - 1];
                    assert(seats_flat(gseq.subrange(0, g as int)) == flat);
                    let w = choose|w: int| 0 <= w < flat.len() && #[trigger] flat[w] == x;
                    if w < seats_flat(gseq.subrange(0, g - 1)).len() {
                        assert(seats_flat(gseq.subrange(0, g - 1)).contains(x)) by {
                            assert(seats_flat(gseq.subrange(0, g - 1))[w] == x);
                        }
                    } else {
                        assert(gseq[g - 1].contains(x)) by {
                            assert(gseq[g - 1][w - seats_flat(gseq.subrange(0, g - 1)).len()]
                                == x);
                        }
                    }
                    if !in_pairs(pairs@, x) {
                        let t = choose|t: int|
                            0 <= t < cand@.len() && !flags@[t] && #[trigger] cand@[t] == x;
                        assert(carried@.contains(x));
                    }
                }
            }
        }
        proof {
            assert(gseq.subrange(0, groups@.len() as int) =~= gseq);
            assert forall|s: usize| s < n implies in_pairs(pairs@, s) || carried@.contains(s) by {
                assert(order@.contains(s));
                assert(seats_flat(gseq).contains(s));
            }
        }
        (pairs, carried)
    }
}

/// A seat listed in one of the remaining groups is a seat of the flat
/// order.
proof fn lemma_seats_flat_skip_contains(gs: Seq<Seq<usize>>, g: int, x: usize)
    requires
        0 <= g <= gs.len(),
        seats_flat(gs.skip(g)).contains(x),
    ensures
        seats_flat(gs).contains(x),
    decreases g,
{
    if g > 0 {
        assert(gs.skip(g - 1).drop_first() =~= gs.skip(g));
        assert(seats_flat(gs.skip(g - 1)) == gs.skip(g - 1)[0] + seats_flat(gs.skip(g)));
        assert(seats_flat(gs.skip(g - 1)).contains(x)) by {
            let w = choose|w: int|
                0 <= w < seats_flat(gs.skip(g)).len() && seats_flat(gs.skip(g))[w] == x;
            assert(seats_flat(gs.skip(g - 1))[w + gs.skip(g - 1)[0].len()] == x);
        }
        lemma_seats_flat_skip_contains(gs, g - 1, x);
    } else {
        assert(gs.skip(0) =~= gs);
    }
}

proof fn lemma_seats_flat_push(gs: Seq<Seq<usize>>, last: Seq<usize>)
    requires
        gs.len() >= 1,
        gs.last() == last,
    ensures
        seats_flat(gs) == seats_flat(gs.drop_last()) + last,
    decreases gs.len(),
{
    if gs.len() == 1 {
        assert(gs.drop_last() =~= Seq::<Seq<usize>>::empty());
        assert(seats_flat(gs) =~= gs[0] + seats_flat(gs.drop_first()));
        assert(gs.drop_first() =~= Seq::<Seq<usize>>::empty());
        assert(seats_flat(gs) =~= Seq::<usize>::empty() + last);
        assert(seats_flat(gs.drop_last()) + last =~= Seq::<usize>::empty() + last);
    } else {
        lemma_seats_flat_push(gs.drop_first(), last);
        assert(gs.drop_first().last() == last);
        assert(gs.drop_first().drop_last() =~= gs.drop_last().drop_first());
        assert(gs.drop_last()[0] == gs[0]);
        assert(seats_flat(gs) == gs[0] + seats_flat(gs.drop_first()));
        assert(seats_flat(gs.drop_last()) == gs.drop_last()[0] + seats_flat(
            gs.drop_last().drop_first(),
        ));
        assert(seats_flat(gs) =~= seats_flat(gs.drop_last()) + last);
    }
}

/// One emitted Swiss round, spelled out: `pairs` seats valid, unmet
/// roster members, each seat at most once; `byes` covers everyone left
/// over, pairwise already-met (no pairable couple is ever byed), each
/// bye a free win on top of `base_scores` and a `record_byes` entry; and
/// `pending` is exactly the `m`-fold expansion of `pairs`, seat order
/// alternating game by game.
pub open spec fn swiss_emission(
    agents: Seq<Agent>,
    advs: Seq<Seq<u32>>,
    base_scores: Seq<TwoPlayersGameScore>,
    base_byes: Seq<u32>,
    m: int,
    pairs: Seq<(usize, usize)>,
    byes: Seq<usize>,
    pending: Seq<Vec<Agent>>,
    post_scores: Seq<TwoPlayersGameScore>,
    post_byes: Seq<u32>,
) -> bool {
    let n = agents.len();
    &&& forall|k: int|
        0 <= k < pairs.len() ==> (#[trigger] pairs[k]).0 < n && pairs[k].1 < n && pairs[k].0
            != pairs[k].1 && agents[pairs[k].0 as int].id != agents[pairs[k].1 as int].id
            && !played_in(
            agents,
            advs,
            agents[pairs[k].0 as int].id,
            agents[pairs[k].1 as int].id,
        )
    &&& pairs_seat_disjoint(pairs)
    &&& byes.no_duplicates()
    &&& forall|t: int| 0 <= t < byes.len() ==> (#[trigger] byes[t]) < n && !in_pairs(pairs, byes[t])
    &&& forall|s: usize| s < n ==> in_pairs(pairs, s) || byes.contains(s)
    &&& forall|t1: int, t2: int|
        0 <= t1 < t2 < byes.len() ==> played_in(
            agents,
            advs,
            agents[(#[trigger] byes[t1]) as int].id,
            agents[(#[trigger] byes[t2]) as int].id,
        )
    &&& pending.len() == pairs.len() * m
    &&& forall|k: int|
        0 <= k < pending.len() ==> ({
            let block = k / m;
            &&& (#[trigger] pending[k])@.len() == 2
            &&& ((k % m) % 2 == 0 ==> clone_of(agents[pairs[block].0 as int], pending[k]@[0])
                && clone_of(agents[pairs[block].1 as int], pending[k]@[1]))
            &&& ((k % m) % 2 == 1 ==> clone_of(agents[pairs[block].1 as int], pending[k]@[0])
                && clone_of(agents[pairs[block].0 as int], pending[k]@[1]))
        })
    &&& post_scores.len() == n
    &&& forall|s: int|
        0 <= s < n && byes.contains(s as usize) ==> #[trigger] post_scores[s]
            == (TwoPlayersGameScore { num_win: sat_inc(base_scores[s].num_win), ..base_scores[s] })
    &&& forall|s: int|
        0 <= s < n && !byes.contains(s as usize) ==> #[trigger] post_scores[s] == base_scores[s]
    &&& post_byes == record_byes(base_byes, agents, byes)
}

impl TournamentStrategy for SwissTournament {
    type FinalScore = TwoPlayersGameScore;

    /// Swiss matches seat two players.
    open spec fn spec_players_per_match(&self) -> int {
        2
    }

    /// Roster ids are distinct; the score and adversary tables parallel
    /// the roster; every recorded adversary is a distinct roster id; and
    /// each pair plays at least one game.
    open spec fn inv(&self) -> bool {
        &&& distinct_ids(self.agents@)
        &&& self.scores@.len() == self.agents@.len()
        &&& self.adversaries@.len() == self.agents@.len()
        &&& self.num_match_per_pair >= 1
        &&& forall|i: int|
            0 <= i < self.adversaries@.len() ==> (#[trigger] self.adversaries@[i])@.no_duplicates()
        &&& forall|i: int, j: int|
            0 <= i < self.adversaries@.len() && 0 <= j < self.adversaries@[i]@.len()
                ==> roster_has_id(self.agents@, #[trigger] self.adversaries@[i]@[j])
    }

    /// A result seats exactly two distinct roster agents.
    open spec fn result_wf(&self, r: Seq<(Agent, i64)>) -> bool {
        &&& r.len() == 2
        &&& r[0].0.id != r[1].0.id
        &&& roster_has_id(self.agents@, r[0].0.id)
        &&& roster_has_id(self.agents@, r[1].0.id)
    }

    /// The final table: every roster agent, in roster order, with its
    /// Swiss score (tie-breakers as refreshed by the last round).
    open spec fn final_scores_relation(&self, scores: Seq<(Agent, TwoPlayersGameScore)>) -> bool {
        &&& scores.len() == self.agents@.len()
        &&& forall|k: int|
            0 <= k < scores.len() ==> clone_of(self.agents@[k], (#[trigger] scores[k]).0)
                && scores[k].1 == self.scores@[k]
    }

    /// The Swiss round: the batch is aggregated per pair and credited
    /// once, adversary lists and tie-breakers brought up to date; then,
    /// while rounds remain, a round is emitted as a [`swiss_emission`] —
    /// unmet pairings expanded `num_match_per_pair`-fold with alternating
    /// seats, and a bye (a free win) for everyone left unpaired.
    open spec fn round_relation(&self, results: Seq<MatchResult>, next: Self, round: Seq<Vec<Agent>>) -> bool {
        let ids = ids_of(self.agents@);
        let rviews = results.map_values(|v: MatchResult| v@);
        let advs_after = advs_groups(advs_view(self.adversaries@), ids, groups_of(rviews));
        let refreshed = refresh_tie_breakers(
            ids,
            credit_groups(self.scores@, ids, groups_of(rviews)),
            advs_after,
        );
        &&& next.agents@ == self.agents@
        &&& next.max_rounds == self.max_rounds
        &&& next.num_match_per_pair == self.num_match_per_pair
        &&& advs_view(next.adversaries@) == advs_after
        &&& (self.round >= self.max_rounds ==> next.round == self.round && round.len() == 0
            && next.scores@ == refreshed && next.bye_history@ == self.bye_history@)
        &&& (self.round < self.max_rounds ==> next.round == self.round + 1 && exists|
            pairs: Seq<(usize, usize)>,
            byes: Seq<usize>,
        |
            swiss_emission(
                self.agents@,
                advs_after,
                refreshed,
                self.bye_history@,
                self.num_match_per_pair as int,
                pairs,
                byes,
                round,
                next.scores@,
                next.bye_history@,
            ))
    }

    /// Hands the roster over; scores and adversary sets start empty, and
    /// a round count of 0 becomes `ceil(log2(n))`.
    fn add_agents(&mut self, agents: Vec<Agent>)
        ensures
            final(self).agents@ == agents@,
            final(self).round == old(self).round,
            final(self).num_match_per_pair == old(self).num_match_per_pair,
            final(self).bye_history@ == old(self).bye_history@,
            final(self).max_rounds as int == (if old(self).max_rounds == 0 {
                spec_auto_rounds(agents@.len() as int)
            } else {
                old(self).max_rounds as int
            }),
            forall|k: int|
                0 <= k < agents@.len() ==> final(self).scores@[k] == (TwoPlayersGameScore {
                    num_win: 0,
                    num_draw: 0,
                    num_lose: 0,
                    tie_breaker: 0,
                }),
            forall|k: int|
                0 <= k < agents@.len() ==> (#[trigger] final(self).adversaries@[k])@.len() == 0,
    {
        let n = agents.len();
        self.agents = agents;
        if self.max_rounds == 0 {
            self.max_rounds = auto_round_count(n);
        }
        let mut scores: Vec<TwoPlayersGameScore> = Vec::new();
        let mut adversaries: Vec<Vec<u32>> = Vec::new();
        let mut i: usize = 0;
        while i < n
            invariant
                i <= n,
                scores@.len() == i,
                adversaries@.len() == i,
                forall|k: int|
                    0 <= k < i ==> scores@[k] == (TwoPlayersGameScore {
                        num_win: 0,
                        num_draw: 0,
                        num_lose: 0,
                        tie_breaker: 0,
                    }),
                forall|k: int| 0 <= k < i ==> (#[trigger] adversaries@[k])@.len() == 0,
            decreases n - i,
        {
            scores.push(TwoPlayersGameScore::default());
            adversaries.push(Vec::new());
            i += 1;
        }
        self.scores = scores;
        self.adversaries = adversaries;
    }

    /// Folds the batch's results into the scores and adversary sets, then
    /// refreshes the tie-breakers, and — while rounds remain — pairs the
    /// players for the next round: `num_match_per_pair` games per pair
    /// with alternating seat order.  Players left unpaired receive a bye.
    fn advance_round(&mut self, results: Vec<MatchResult>) -> (pending: Vec<Vec<Agent>>)
        ensures
            final(self).agents@ == old(self).agents@,
            final(self).max_rounds == old(self).max_rounds,
            final(self).num_match_per_pair == old(self).num_match_per_pair,
            old(self).round >= old(self).max_rounds ==> final(self).round == old(self).round
                && pending@.len() == 0,
            old(self).round < old(self).max_rounds ==> final(self).round == old(self).round + 1,
            forall|k: int|
                0 <= k < pending@.len() ==> (#[trigger] pending@[k])@.len() == 2 && pending@[k]@[0].id
                    != pending@[k]@[1].id,
            forall|k: int, m: int|
                0 <= k < pending@.len() && 0 <= m < pending@[k]@.len() ==> from_roster(
                    old(self).agents@,
                    #[trigger] pending@[k]@[m],
                ),
            old(self).agents@.len() <= 1 ==> pending@.len() == 0,
            (pending@.len() as int) % (old(self).num_match_per_pair as int) == 0,
            forall|k: int|
                0 <= k < pending@.len() ==> ({
                    let gg = old(self).num_match_per_pair as int;
                    let b = k - (k % gg);
                    &&& (k % gg) % 2 == 0 ==> (#[trigger] pending@[k])@[0].id == pending@[b]@[0].id
                        && pending@[k]@[1].id == pending@[b]@[1].id
                    &&& (k % gg) % 2 == 1 ==> pending@[k]@[0].id == pending@[b]@[1].id
                        && pending@[k]@[1].id == pending@[b]@[0].id
                }),
            advs_view(final(self).adversaries@) == advs_groups(
                advs_view(old(self).adversaries@),
                ids_of(old(self).agents@),
                groups_of(results@.map_values(|v: MatchResult| v@)),
            ),
            old(self).round >= old(self).max_rounds ==> final(self).scores@
                == refresh_tie_breakers(
                ids_of(old(self).agents@),
                credit_groups(
                    old(self).scores@,
                    ids_of(old(self).agents@),
                    groups_of(results@.map_values(|v: MatchResult| v@)),
                ),
                advs_view(final(self).adversaries@),
            ),
    {
        self.update_scores(&results);
        self.update_tie_breakers();
        let ghost mid_scores = self.scores@;
        let ghost mid_byes = self.bye_history@;
        let ghost advs_after = advs_view(self.adversaries@);
        proof {
            assert(self.scores@ =~= refresh_tie_breakers(
                ids_of(self.agents@),
                credit_groups(
                    old(self).scores@,
                    ids_of(old(self).agents@),
                    groups_of(results@.map_values(|v: MatchResult| v@)),
                ),
                advs_view(self.adversaries@),
            ));
        }
        if self.round >= self.max_rounds {
            let out: Vec<Vec<Agent>> = Vec::new();
            proof {
                assert(old(self).round_relation(results@, *self, out@));
            }
            return out;
        }
        let (pairs, byes) = self.create_next_round_pairings();
        proof {
            // With at most one player no pair of two distinct roster
            // members exists: a lone player only ever receives byes.
            if self.agents@.len() <= 1 && pairs@.len() > 0 {
                assert(pairs@[0].0 < 1 && pairs@[0].1 < 1 && pairs@[0].0 != pairs@[0].1);
                assert(false);
            }
        }
        self.round = self.round + 1;
        // Each pair plays `num_match_per_pair` games, alternating the seat
        // order so that an asymmetric game is fair.
        let n = self.agents.len();
        let g = self.num_match_per_pair;
        let mut pending: Vec<Vec<Agent>> = Vec::new();
        let mut t: usize = 0;
        while t < pairs.len()
            invariant
                self.inv(),
                n == self.agents@.len(),
                g == self.num_match_per_pair,
                g >= 1,
                t <= pairs@.len(),
                forall|k: int|
                    0 <= k < pairs@.len() ==> (#[trigger] pairs@[k]).0 < n && pairs@[k].1 < n
                        && pairs@[k].0 != pairs@[k].1,
                n <= 1 ==> pairs@.len() == 0 && pending@.len() == 0,
                pending@.len() == t * g,
                forall|k: int|
                    0 <= k < pending@.len() ==> (#[trigger] pending@[k])@.len() == 2
                        && pending@[k]@[0].id != pending@[k]@[1].id,
                forall|k: int, m: int|
                    0 <= k < pending@.len() && 0 <= m < pending@[k]@.len() ==> from_roster(
                        self.agents@,
                        #[trigger] pending@[k]@[m],
                    ),
                forall|k: int|
                    0 <= k < pending@.len() ==> ({
                        let block = k / (g as int);
                        &&& (k % (g as int)) % 2 == 0 ==> clone_of(
                            self.agents@[pairs@[block].0 as int],
                            (#[trigger] pending@[k])@[0],
                        ) && clone_of(self.agents@[pairs@[block].1 as int], pending@[k]@[1])
                        &&& (k % (g as int)) % 2 == 1 ==> clone_of(
                            self.agents@[pairs@[block].1 as int],
                            pending@[k]@[0],
                        ) && clone_of(self.agents@[pairs@[block].0 as int], pending@[k]@[1])
                    }),
            decreases pairs@.len() - t,
        {
            let (lo, hi) = (pairs[t].0, pairs[t].1);
            let mut cnt: usize = 0;
            while cnt < g
                invariant
                    self.inv(),
                    n == self.agents@.len(),
                    g == self.num_match_per_pair,
                    g >= 1,
                    t < pairs@.len(),
                    forall|k: int|
                        0 <= k < pairs@.len() ==> (#[trigger] pairs@[k]).0 < n && pairs@[k].1 < n
                            && pairs@[k].0 != pairs@[k].1,
                    lo == pairs@[t as int].0,
                    hi == pairs@[t as int].1,
                    n > 1,
                    cnt <= g,
                    pending@.len() == t * g + cnt,
                    forall|k: int|
                        0 <= k < pending@.len() ==> (#[trigger] pending@[k])@.len() == 2
                            && pending@[k]@[0].id != pending@[k]@[1].id,
                    forall|k: int, m: int|
                        0 <= k < pending@.len() && 0 <= m < pending@[k]@.len() ==> from_roster(
                            self.agents@,
                            #[trigger] pending@[k]@[m],
                        ),
                    forall|k: int|
                        0 <= k < pending@.len() ==> ({
                            let block = k / (g as int);
                            &&& (k % (g as int)) % 2 == 0 ==> clone_of(
                                self.agents@[pairs@[block].0 as int],
                                (#[trigger] pending@[k])@[0],
                            ) && clone_of(self.agents@[pairs@[block].1 as int], pending@[k]@[1])
                            &&& (k % (g as int)) % 2 == 1 ==> clone_of(
                                self.agents@[pairs@[block].1 as int],
                                pending@[k]@[0],
                            ) && clone_of(self.agents@[pairs@[block].0 as int], pending@[k]@[1])
                        }),
                decreases g - cnt,
            {
                let ghost len0 = pending@.len() as int;
                let (first_seat, second_seat) = if cnt % 2 == 0 {
                    (lo, hi)
                } else {
                    (hi, lo)
                };
                let mut pairing: Vec<Agent> = Vec::new();
                pairing.push(self.agents[first_seat].clone());
                pairing.push(self.agents[second_seat].clone());
                pending.push(pairing);
                proof {
                    assert(forall|k: int|
                        0 <= k < len0 ==> #[trigger] pending@[k] == pending@.drop_last()[k]);
                    assert(self.agents@[first_seat as int].id != self.agents@[second_seat as int].id);
                    assert(len0 / (g as int) == t && len0 % (g as int) == cnt)
                        by (nonlinear_arith)
                        requires
                            len0 == t * g + cnt,
                            0 <= cnt < g,
                            t >= 0,
                    ;
                }
                cnt += 1;
            }
            t += 1;
            proof {
                assert((t - 1) * g + g == t * g) by (nonlinear_arith);
            }
        }
        proof {
            assert((pairs@.len() as int) * (g as int) % (g as int) == 0) by (nonlinear_arith)
                requires
                    g >= 1,
            ;
            // The answer comes in blocks of `num_match_per_pair` games per
            // pair; relate every game to the first of its block.
            assert forall|k: int| 0 <= k < pending@.len() implies ({
                let gg = self.num_match_per_pair as int;
                let b = k - (k % gg);
                &&& (k % gg) % 2 == 0 ==> (#[trigger] pending@[k])@[0].id == pending@[b]@[0].id
                    && pending@[k]@[1].id == pending@[b]@[1].id
                &&& (k % gg) % 2 == 1 ==> pending@[k]@[0].id == pending@[b]@[1].id
                    && pending@[k]@[1].id == pending@[b]@[0].id
            }) by {
                let gg = self.num_match_per_pair as int;
                let b = k - (k % gg);
                assert(0 <= b <= k && b / gg == k / gg && b % gg == 0) by (nonlinear_arith)
                    requires
                        b == k - (k % gg),
                        0 <= k,
                        gg >= 1,
                ;
            }
            // This round is a Swiss emission, witnessed by the concrete
            // pairs and byes the pairing produced.
            assert(swiss_emission(
                old(self).agents@,
                advs_after,
                mid_scores,
                mid_byes,
                g as int,
                pairs@,
                byes@,
                pending@,
                self.scores@,
                self.bye_history@,
            ));
            assert(old(self).round_relation(results@, *self, pending@));
        }
        pending
    }

    fn players_per_match(&self) -> (n: usize) {
        2
    }

    /// Every roster agent with its Swiss score (tie-breakers refreshed by
    /// the last `advance_round`), in roster order.
    fn get_final_scores(&self) -> (scores: Vec<(Agent, TwoPlayersGameScore)>)
        ensures
            scores@.len() == self.agents@.len(),
            forall|k: int|
                0 <= k < scores@.len() ==> clone_of(self.agents@[k], (#[trigger] scores@[k]).0)
                    && scores@[k].1 == self.scores@[k],
    {
        let mut out: Vec<(Agent, TwoPlayersGameScore)> = Vec::new();
        let mut i: usize = 0;
        while i < self.agents.len()
            invariant
                i <= self.agents@.len(),
                self.scores@.len() == self.agents@.len(),
                out@.len() == i,
                forall|k: int|
                    0 <= k < i ==> clone_of(self.agents@[k], (#[trigger] out@[k]).0) && out@[k].1
                        == self.scores@[k],
            decreases self.agents@.len() - i,
        {
            out.push((self.agents[i].clone(), self.scores[i]));
            i += 1;
        }
        out
    }
}

/// Two score tables with the same wins and draws give every id the same
/// points.
proof fn lemma_points_by_id_same(
    ids: Seq<u32>,
    s1: Seq<TwoPlayersGameScore>,
    s2: Seq<TwoPlayersGameScore>,
    id: u32,
)
    requires
        s1.len() == s2.len(),
        forall|t: int| 0 <= t < s1.len() ==> points_of(#[trigger] s2[t]) == points_of(s1[t]),
    ensures
        points_by_id(ids, s1, id) == points_by_id(ids, s2, id),
    decreases ids.len(),
{
    if ids.len() > 0 && s1.len() > 0 && ids[0] != id {
        assert(forall|t: int|
            0 <= t < s1.drop_first().len() ==> points_of(#[trigger] s2.drop_first()[t])
                == points_of(s1.drop_first()[t])) by {
            assert(forall|t: int|
                0 <= t < s1.drop_first().len() ==> #[trigger] s1.drop_first()[t] == s1[t + 1]
                    && s2.drop_first()[t] == s2[t + 1]);
        }
        lemma_points_by_id_same(ids.drop_first(), s1.drop_first(), s2.drop_first(), id);
    }
}

/// The list of scores an agent gathered across its solo games.  The
/// derived order compares the lists lexicographically.
#[derive(PartialEq, Eq, PartialOrd, Ord, Debug)]
pub struct SinglePlayerScore(pub Vec<i64>);

impl Default for SinglePlayerScore {
    /// An agent starts with no recorded scores.
    fn default() -> (s: Self)
        ensures
            s.0@.len() == 0,
    {
        SinglePlayerScore(Vec::new())
    }
}

impl Clone for SinglePlayerScore {
    /// The clone lists the same scores.
    fn clone(&self) -> (res: Self)
        ensures
            res.0@ == self.0@,
    {
        let v = self.0.clone();
        proof {
            assert(v@ =~= self.0@);
        }
        SinglePlayerScore(v)
    }
}

/// The score lists of a score table.
pub open spec fn sp_views(scores: Seq<SinglePlayerScore>) -> Seq<Seq<i64>> {
    scores.map_values(|s: SinglePlayerScore| s.0@)
}

/// One `(agent, score)` entry appended to the score list of the roster
/// seat carrying that id.
pub open spec fn sp_credit_entry(views: Seq<Seq<i64>>, ids: Seq<u32>, id: u32, sc: i64) -> Seq<
    Seq<i64>,
> {
    Seq::new(views.len(), |k: int| if ids[k] == id {
        views[k].push(sc)
    } else {
        views[k]
    })
}

/// One match result folded into the score lists, entry by entry.
pub open spec fn sp_credit_result(views: Seq<Seq<i64>>, ids: Seq<u32>, r: Seq<(Agent, i64)>) -> Seq<
    Seq<i64>,
>
    decreases r.len(),
{
    if r.len() == 0 {
        views
    } else {
        sp_credit_entry(
            sp_credit_result(views, ids, r.drop_last()),
            ids,
            r.last().0.id,
            r.last().1,
        )
    }
}

/// A whole batch of results folded into the score lists, in order.
pub open spec fn sp_credit_all(
    views: Seq<Seq<i64>>,
    ids: Seq<u32>,
    results: Seq<Seq<(Agent, i64)>>,
) -> Seq<Seq<i64>>
    decreases results.len(),
{
    if results.len() == 0 {
        views
    } else {
        sp_credit_result(sp_credit_all(views, ids, results.drop_last()), ids, results.last())
    }
}

/// A tournament in which every agent plays alone, `game_per_agent` times,
/// and is ranked by the list of scores it gathered.
#[derive(Debug)]
pub struct SinglePlayerTournament {
    /// How many solo games each agent plays.
    pub game_per_agent: usize,
    /// The roster, as handed to `add_agents`.
    pub agents: Vec<Agent>,
    /// Per-roster-seat score lists, same order as `agents`.
    pub scores: Vec<SinglePlayerScore>,
    /// Whether the solo games have been emitted; handing a new roster
    /// over arms the single round again.
    pub emitted: bool,
}

impl SinglePlayerTournament {
    /// Creates a single-player tournament running `game_per_agent` solo
    /// games per agent.
    pub fn new(game_per_agent: usize) -> (t: SinglePlayerTournament)
        ensures
            t.inv(),
            t.game_per_agent == game_per_agent,
            t.agents@.len() == 0,
            t.scores@.len() == 0,
            !t.emitted,
    {
        SinglePlayerTournament {
            game_per_agent,
            agents: Vec::new(),
            scores: Vec::new(),
            emitted: false,
        }
    }
}

impl TournamentStrategy for SinglePlayerTournament {
    type FinalScore = SinglePlayerScore;

    /// Solo matches seat one player.
    open spec fn spec_players_per_match(&self) -> int {
        1
    }

    /// Roster ids are distinct and the score table parallels the roster.
    open spec fn inv(&self) -> bool {
        &&& distinct_ids(self.agents@)
        &&& self.scores@.len() == self.agents@.len()
    }

    /// Every entry of a result belongs to a roster agent.
    open spec fn result_wf(&self, r: Seq<(Agent, i64)>) -> bool {
        forall|k: int| 0 <= k < r.len() ==> roster_has_id(self.agents@, (#[trigger] r[k]).0.id)
    }

    /// The final table: every roster agent, in roster order, with the
    /// list of scores it gathered.
    open spec fn final_scores_relation(&self, scores: Seq<(Agent, SinglePlayerScore)>) -> bool {
        &&& scores.len() == self.agents@.len()
        &&& forall|k: int|
            0 <= k < scores.len() ==> clone_of(self.agents@[k], (#[trigger] scores[k]).0)
                && scores[k].1.0@ == self.scores@[k].0@
    }

    /// The single-player round: every received score joins its agent's
    /// list, and the first call after a roster was handed over emits
    /// `game_per_agent` solo games per agent, grouped in roster order.
    open spec fn round_relation(&self, results: Seq<MatchResult>, next: Self, round: Seq<Vec<Agent>>) -> bool {
        &&& next.agents@ == self.agents@
        &&& next.game_per_agent == self.game_per_agent
        &&& next.emitted
        &&& sp_views(next.scores@) == sp_credit_all(
            sp_views(self.scores@),
            ids_of(self.agents@),
            results.map_values(|v: MatchResult| v@),
        )
        &&& (self.emitted ==> round.len() == 0)
        &&& (!self.emitted ==> round.len() == self.agents@.len() * self.game_per_agent)
        &&& (!self.emitted && self.game_per_agent > 0 ==> forall|k: int|
            0 <= k < round.len() ==> (#[trigger] round[k])@.len() == 1 && clone_of(
                self.agents@[k / (self.game_per_agent as int)],
                round[k]@[0],
            ))
        &&& forall|k: int| 0 <= k < round.len() ==> (#[trigger] round[k])@.len() == 1
    }

    fn add_agents(&mut self, agents: Vec<Agent>)
        ensures
            final(self).agents@ == agents@,
            final(self).game_per_agent == old(self).game_per_agent,
            !final(self).emitted,
            forall|k: int| 0 <= k < agents@.len() ==> (#[trigger] final(self).scores@[k]).0@.len() == 0,
    {
        let n = agents.len();
        self.agents = agents;
        self.emitted = false;
        let mut scores: Vec<SinglePlayerScore> = Vec::new();
        let mut i: usize = 0;
        while i < n
            invariant
                i <= n,
                scores@.len() == i,
                forall|k: int| 0 <= k < i ==> (#[trigger] scores@[k]).0@.len() == 0,
            decreases n - i,
        {
            scores.push(SinglePlayerScore::default());
            i += 1;
        }
        self.scores = scores;
    }

    /// Credits every received score to its agent's list, then — the first
    /// time after a roster was handed over — emits `game_per_agent` solo
    /// matches per agent, grouped per agent in roster order.  Afterwards
    /// the answer is empty.
    fn advance_round(&mut self, results: Vec<MatchResult>) -> (pending: Vec<Vec<Agent>>)
        ensures
            final(self).agents@ == old(self).agents@,
            final(self).game_per_agent == old(self).game_per_agent,
            final(self).emitted,
            sp_views(final(self).scores@) == sp_credit_all(
                sp_views(old(self).scores@),
                ids_of(old(self).agents@),
                results@.map_values(|v: MatchResult| v@),
            ),
            old(self).emitted ==> pending@.len() == 0,
            !old(self).emitted ==> pending@.len() == old(self).agents@.len() * old(
                self,
            ).game_per_agent,
            !old(self).emitted && old(self).game_per_agent > 0 ==> forall|k: int|
                0 <= k < pending@.len() ==> (#[trigger] pending@[k])@.len() == 1 && clone_of(
                    old(self).agents@[k / (old(self).game_per_agent as int)],
                    pending@[k]@[0],
                ),
    {
        let ghost rseq = results@.map_values(|v: MatchResult| v@);
        let ghost ids = ids_of(self.agents@);
        let ghost views0 = sp_views(self.scores@);
        let num_results = results.len();
        let mut i: usize = 0;
        proof {
            assert(rseq.take(0) =~= Seq::<Seq<(Agent, i64)>>::empty());
        }
        while i < num_results
            invariant
                num_results == results@.len(),
                rseq == results@.map_values(|v: MatchResult| v@),
                ids == ids_of(self.agents@),
                views0 == sp_views(old(self).scores@),
                i <= num_results,
                self.inv(),
                self.agents@ == old(self).agents@,
                self.game_per_agent == old(self).game_per_agent,
                self.emitted == old(self).emitted,
                forall|t: int|
                    0 <= t < results@.len() ==> old(self).result_wf((#[trigger] results@[t])@),
                sp_views(self.scores@) == sp_credit_all(views0, ids, rseq.take(i as int)),
            decreases num_results - i,
        {
            let ghost entry_views = sp_views(self.scores@);
            let r: &MatchResult = &results[i];
            proof {
                assert(rseq[i as int] == r@);
                assert(old(self).result_wf(r@));
            }
            let mut p: usize = 0;
            proof {
                assert(r@.take(0) =~= Seq::<(Agent, i64)>::empty());
            }
            while p < r.len()
                invariant
                    p <= r@.len(),
                    self.inv(),
                    self.agents@ == old(self).agents@,
                    self.game_per_agent == old(self).game_per_agent,
                    self.emitted == old(self).emitted,
                    ids == ids_of(self.agents@),
                    old(self).result_wf(r@),
                    sp_views(self.scores@) == sp_credit_result(entry_views, ids, r@.take(p as int)),
                decreases r@.len() - p,
            {
                let ghost before = sp_views(self.scores@);
                let id = r[p].0.id;
                let sc = r[p].1;
                let seat = find_seat(&self.agents, id);
                let mut cur = self.scores[seat].clone();
                cur.0.push(sc);
                self.scores.set(seat, cur);
                proof {
                    assert(r@.take(p + 1).drop_last() =~= r@.take(p as int));
                    assert(r@.take(p + 1).last() == r@[p as int]);
                    assert forall|k: int| 0 <= k < self.scores@.len() implies sp_views(
                        self.scores@,
                    )[k] == sp_credit_entry(before, ids, id, sc)[k] by {
                        if k == seat {
                            assert(ids[k] == id);
                        } else {
                            assert(self.agents@[k].id != self.agents@[seat as int].id);
                            assert(ids[k] != id);
                        }
                    }
                    assert(sp_views(self.scores@) =~= sp_credit_entry(before, ids, id, sc));
                }
                p += 1;
            }
            proof {
                assert(r@.take(r@.len() as int) =~= r@);
                assert(rseq.take(i + 1).drop_last() =~= rseq.take(i as int));
                assert(rseq.take(i + 1).last() == rseq[i as int]);
            }
            i += 1;
        }
        proof {
            assert(rseq.take(num_results as int) =~= rseq);
        }
        if self.emitted {
            let out: Vec<Vec<Agent>> = Vec::new();
            proof {
                assert(old(self).round_relation(results@, *self, out@));
            }
            return out;
        }
        self.emitted = true;
        let n = self.agents.len();
        let g = self.game_per_agent;
        let mut pending: Vec<Vec<Agent>> = Vec::new();
        let mut t: usize = 0;
        while t < n
            invariant
                n == self.agents@.len(),
                g == self.game_per_agent,
                self.inv(),
                t <= n,
                pending@.len() == t * g,
                g > 0 ==> forall|k: int|
                    0 <= k < pending@.len() ==> (#[trigger] pending@[k])@.len() == 1 && clone_of(
                        self.agents@[k / (g as int)],
                        pending@[k]@[0],
                    ),
            decreases n - t,
        {
            let mut cnt: usize = 0;
            while cnt < g
                invariant
                    n == self.agents@.len(),
                    g == self.game_per_agent,
                    self.inv(),
                    t < n,
                    cnt <= g,
                    pending@.len() == t * g + cnt,
                    g > 0 ==> forall|k: int|
                        0 <= k < pending@.len() ==> (#[trigger] pending@[k])@.len() == 1
                            && clone_of(self.agents@[k / (g as int)], pending@[k]@[0]),
                decreases g - cnt,
            {
                let ghost len0 = pending@.len() as int;
                let agent = self.agents[t].clone();
                let mut solo: Vec<Agent> = Vec::new();
                solo.push(agent);
                pending.push(solo);
                proof {
                    assert(len0 / (g as int) == t) by (nonlinear_arith)
                        requires
                            len0 == t * g + cnt,
                            0 <= cnt < g,
                            t >= 0,
                    ;
                    assert(forall|k: int|
                        0 <= k < len0 ==> #[trigger] pending@[k] == pending@.drop_last()[k]);
                }
                cnt += 1;
            }
            t += 1;
            proof {
                assert((t - 1) * g + g == t * g) by (nonlinear_arith);
            }
        }
        proof {
            if g == 0 {
                assert(n * g == 0) by (nonlinear_arith)
                    requires
                        g == 0,
                ;
            }
            assert(forall|k: int|
                0 <= k < pending@.len() ==> (#[trigger] pending@[k])@.len() == 1);
            assert(old(self).round_relation(results@, *self, pending@));
        }
        pending
    }

    fn players_per_match(&self) -> (n: usize) {
        1
    }

    /// Every roster agent with the list of scores it gathered, in roster
    /// order.
    fn get_final_scores(&self) -> (scores: Vec<(Agent, SinglePlayerScore)>)
        ensures
            scores@.len() == self.agents@.len(),
            forall|k: int|
                0 <= k < scores@.len() ==> clone_of(self.agents@[k], (#[trigger] scores@[k]).0)
                    && scores@[k].1.0@ == self.scores@[k].0@,
    {
        let mut out: Vec<(Agent, SinglePlayerScore)> = Vec::new();
        let mut i: usize = 0;
        while i < self.agents.len()
            invariant
                i <= self.agents@.len(),
                self.scores@.len() == self.agents@.len(),
                out@.len() == i,
                forall|k: int|
                    0 <= k < i ==> clone_of(self.agents@[k], (#[trigger] out@[k]).0)
                        && out@[k].1.0@ == self.scores@[k].0@,
            decreases self.agents@.len() - i,
        {
            out.push((self.agents[i].clone(), self.scores[i].clone()));
            i += 1;
        }
        out
    }
}

/// The seats of a pair list, in order.
pub open spec fn pairs_flat(pairs: Seq<(usize, usize)>) -> Seq<usize>
    decreases pairs.len(),
{
    if pairs.len() == 0 {
        Seq::<usize>::empty()
    } else {
        pairs_flat(pairs.drop_last()) + seq![pairs.last().0, pairs.last().1]
    }
}

proof fn lemma_pairs_flat_len(pairs: Seq<(usize, usize)>)
    ensures
        pairs_flat(pairs).len() == 2 * pairs.len(),
    decreases pairs.len(),
{
    if pairs.len() > 0 {
        lemma_pairs_flat_len(pairs.drop_last());
    }
}

proof fn lemma_pairs_flat_contains(pairs: Seq<(usize, usize)>, x: usize)
    ensures
        pairs_flat(pairs).contains(x) <==> in_pairs(pairs, x),
    decreases pairs.len(),
{
    if pairs.len() > 0 {
        let dl = pairs.drop_last();
        lemma_pairs_flat_contains(dl, x);
        let flat = pairs_flat(pairs);
        assert(flat.len() == pairs_flat(dl).len() + 2);
        assert(forall|t: int| 0 <= t < pairs_flat(dl).len() ==> flat[t] == pairs_flat(dl)[t]);
        assert(flat[flat.len() - 2] == pairs.last().0);
        assert(flat[flat.len() - 1] == pairs.last().1);
        if flat.contains(x) {
            let t = choose|t: int| 0 <= t < flat.len() && flat[t] == x;
            if t < pairs_flat(dl).len() {
                assert(pairs_flat(dl).contains(x)) by {
                    assert(pairs_flat(dl)[t] == x);
                }
                let k = choose|k: int|
                    0 <= k < dl.len() && ((#[trigger] dl[k]).0 == x || dl[k].1 == x);
                assert(pairs[k].0 == x || pairs[k].1 == x);
            } else {
                assert(pairs.last().0 == x || pairs.last().1 == x);
            }
            assert(in_pairs(pairs, x));
        }
        if in_pairs(pairs, x) {
            let k = choose|k: int|
                0 <= k < pairs.len() && ((#[trigger] pairs[k]).0 == x || pairs[k].1 == x);
            if k < dl.len() {
                assert(dl[k] == pairs[k]);
                assert(in_pairs(dl, x));
                let t = choose|t: int|
                    0 <= t < pairs_flat(dl).len() && #[trigger] pairs_flat(dl)[t] == x;
                assert(flat[t] == x);
            } else {
                assert(flat[flat.len() - 2] == x || flat[flat.len() - 1] == x);
            }
            assert(flat.contains(x));
        }
    }
}

proof fn lemma_pairs_flat_no_dup(pairs: Seq<(usize, usize)>)
    requires
        pairs_seat_disjoint(pairs),
        forall|k: int| 0 <= k < pairs.len() ==> (#[trigger] pairs[k]).0 != pairs[k].1,
    ensures
        pairs_flat(pairs).no_duplicates(),
    decreases pairs.len(),
{
    if pairs.len() > 0 {
        let dl = pairs.drop_last();
        assert(forall|k: int| 0 <= k < dl.len() ==> #[trigger] dl[k] == pairs[k]);
        lemma_pairs_flat_no_dup(dl);
        let flat = pairs_flat(pairs);
        let a = pairs.last().0;
        let b = pairs.last().1;
        assert(!in_pairs(dl, a) && !in_pairs(dl, b)) by {
            if in_pairs(dl, a) {
                let k = choose|k: int|
                    0 <= k < dl.len() && ((#[trigger] dl[k]).0 == a || dl[k].1 == a);
                assert(pairs[k].0 != pairs[pairs.len() - 1].0 && pairs[k].1 != pairs[pairs.len()
                    - 1].0);
            }
            if in_pairs(dl, b) {
                let k = choose|k: int|
                    0 <= k < dl.len() && ((#[trigger] dl[k]).0 == b || dl[k].1 == b);
                assert(pairs[k].0 != pairs[pairs.len() - 1].1 && pairs[k].1 != pairs[pairs.len()
                    - 1].1);
            }
        }
        lemma_pairs_flat_contains(dl, a);
        lemma_pairs_flat_contains(dl, b);
        assert(flat =~= pairs_flat(dl) + seq![a, b]);
        lemma_concat_no_dup_intro(pairs_flat(dl), seq![a, b]);
    }
}

/// The set of seats below `n`.
pub open spec fn seats_below(n: int) -> Set<usize> {
    Set::new(|s: usize| (s as int) < n)
}

proof fn lemma_seats_below_len(n: int)
    requires
        0 <= n <= usize::MAX,
    ensures
        seats_below(n).finite(),
        seats_below(n).len() == n,
    decreases n,
{
    if n == 0 {
        assert(seats_below(0) =~= Set::<usize>::empty());
    } else {
        lemma_seats_below_len(n - 1);
        assert(seats_below(n) =~= seats_below(n - 1).insert(((n - 1) as usize)));
        assert(!seats_below(n - 1).contains((n - 1) as usize));
    }
}

/// Law: a round with no possible rematch is as full as it can be.  When
/// no two agents have met yet (every adversary list is empty), at most
/// one agent is byed, and with an even roster nobody is: the pairs cover
/// the whole roster, so the round holds exactly `n / 2` pairings — and,
/// through `swiss_emission`, `(n / 2) · num_match_per_pair` games.
pub proof fn lemma_no_rematch_round_is_full(
    agents: Seq<Agent>,
    advs: Seq<Seq<u32>>,
    pairs: Seq<(usize, usize)>,
    byes: Seq<usize>,
)
    requires
        agents.len() <= usize::MAX,
        advs.len() == agents.len(),
        forall|i: int| 0 <= i < advs.len() ==> (#[trigger] advs[i]).len() == 0,
        forall|k: int|
            0 <= k < pairs.len() ==> (#[trigger] pairs[k]).0 < agents.len() && pairs[k].1
                < agents.len() && pairs[k].0 != pairs[k].1,
        pairs_seat_disjoint(pairs),
        byes.no_duplicates(),
        forall|t: int|
            0 <= t < byes.len() ==> (#[trigger] byes[t]) < agents.len() && !in_pairs(
                pairs,
                byes[t],
            ),
        forall|s: usize| s < agents.len() ==> in_pairs(pairs, s) || byes.contains(s),
        forall|t1: int, t2: int|
            0 <= t1 < t2 < byes.len() ==> played_in(
                agents,
                advs,
                agents[(#[trigger] byes[t1]) as int].id,
                agents[(#[trigger] byes[t2]) as int].id,
            ),
    ensures
        byes.len() <= 1,
        2 * pairs.len() + byes.len() == agents.len(),
        agents.len() % 2 == 0 ==> byes.len() == 0 && 2 * pairs.len() == agents.len(),
{
    let n = agents.len() as int;
    // Nobody has met, so two byed agents would contradict the rule that
    // byes have all met each other.
    assert(byes.len() <= 1) by {
        if byes.len() >= 2 {
            assert(played_in(agents, advs, agents[byes[0] as int].id, agents[byes[1] as int].id));
            let i = choose|i: int|
                0 <= i < agents.len() && (#[trigger] agents[i]).id == agents[byes[0] as int].id
                    && advs[i].contains(agents[byes[1] as int].id);
            assert(advs[i].len() == 0);
        }
    }
    // Count: the paired seats and the byes partition the roster.
    let flat = pairs_flat(pairs);
    lemma_pairs_flat_len(pairs);
    lemma_pairs_flat_no_dup(pairs);
    assert forall|x: usize| flat.contains(x) implies !byes.contains(x) by {
        lemma_pairs_flat_contains(pairs, x);
        if byes.contains(x) {
            let t = choose|t: int| 0 <= t < byes.len() && #[trigger] byes[t] == x;
        }
    }
    lemma_concat_no_dup_intro(flat, byes);
    let all = flat + byes;
    assert(all.to_set() =~= seats_below(n)) by {
        assert forall|x: usize| all.contains(x) implies seats_below(n).contains(x) by {
            let t = choose|t: int| 0 <= t < all.len() && #[trigger] all[t] == x;
            if t < flat.len() {
                assert(flat.contains(x)) by {
                    assert(flat[t] == x);
                }
                lemma_pairs_flat_contains(pairs, x);
                let k = choose|k: int|
                    0 <= k < pairs.len() && ((#[trigger] pairs[k]).0 == x || pairs[k].1 == x);
            } else {
                assert(byes[t - flat.len()] == x);
            }
        }
        assert forall|x: usize| seats_below(n).contains(x) implies all.contains(x) by {
            if in_pairs(pairs, x) {
                lemma_pairs_flat_contains(pairs, x);
                let t = choose|t: int| 0 <= t < flat.len() && #[trigger] flat[t] == x;
                assert(all[t] == x);
            } else {
                assert(byes.contains(x));
                let t = choose|t: int| 0 <= t < byes.len() && #[trigger] byes[t] == x;
                assert(all[flat.len() + t] == x);
            }
        }
    }
    all.unique_seq_to_set();
    lemma_seats_below_len(n);
    assert(all.len() == n);
}

} // verus!
