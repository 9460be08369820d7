//! Bridges a tournament strategy and the match runner: starts matches as
//! resources allow, collects results, and advances rounds.
//!
//! The scheduler holds the free-resource pool.  `advance` asks the
//! strategy for the next round once the previous one has fully drained,
//! then carves a disjoint resource slice off the pool for every pending
//! pairing it can serve; `on_result` returns a finished match's slice to
//! the pool and tries again.  Matches only ever hold slices carved off
//! the pool, so no two running matches share a CPU, and what a match
//! frees is exactly what it consumed.

use crate::agent::Agent;
use crate::constraints::Constraints;
use crate::match_runner::MatchResult;
use crate::match_runner::MatchSettings;
use crate::match_runner::RunnerResult;
use crate::tournament_strategy::TournamentStrategy;
use vstd::prelude::*;

verus! {

/// Whether a pool can serve a slice of `cpus` CPUs and `ram` bytes.
pub open spec fn can_take(pool: &Constraints, cpus: int, ram: int) -> bool {
    pool.cpus@.len() >= cpus && pool.total_ram >= ram
}

/// The CPUs held by a batch of emitted matches.
pub open spec fn emitted_cpus(ms: Seq<MatchSettings>) -> Set<u8>
    decreases ms.len(),
{
    if ms.len() == 0 {
        Set::<u8>::empty()
    } else {
        emitted_cpus(ms.drop_last()).union(ms.last().resources.cpu_set())
    }
}

/// The RAM bytes held by a batch of emitted matches.
pub open spec fn emitted_ram(ms: Seq<MatchSettings>) -> int
    decreases ms.len(),
{
    if ms.len() == 0 {
        0
    } else {
        emitted_ram(ms.drop_last()) + ms.last().resources.total_ram
    }
}

/// The entries of `s` whose flag equals `want`, in order: the emitted
/// matches and the kept queue are the two halves of one round.
pub open spec fn selected(s: Seq<Vec<Agent>>, taken: Seq<bool>, want: bool) -> Seq<Vec<Agent>>
    decreases s.len(),
{
    if s.len() == 0 {
        Seq::<Vec<Agent>>::empty()
    } else if taken[s.len() - 1] == want {
        selected(s.drop_last(), taken.drop_last(), want).push(s.last())
    } else {
        selected(s.drop_last(), taken.drop_last(), want)
    }
}

proof fn lemma_selected_all_false(s: Seq<Vec<Agent>>, taken: Seq<bool>)
    requires
        taken.len() == s.len(),
        forall|i: int| 0 <= i < taken.len() ==> !(#[trigger] taken[i]),
    ensures
        selected(s, taken, true) == Seq::<Vec<Agent>>::empty(),
        selected(s, taken, false) == s,
    decreases s.len(),
{
    if s.len() > 0 {
        lemma_selected_all_false(s.drop_last(), taken.drop_last());
        assert(selected(s, taken, false) =~= s);
    }
}

/// Runs a tournament strategy over a finite resource pool.
pub struct TournamentScheduler<T: TournamentStrategy> {
    /// Results gathered since the strategy was last asked for a round.
    pub scores: Vec<MatchResult>,
    /// The free-resource pool.
    pub resources: Constraints,
    /// Pairings waiting for resources.
    pub pending_matches: Vec<Vec<Agent>>,
    /// The strategy deciding who plays whom.
    pub strategy: T,
    /// Matches currently running.
    pub running_matches: usize,
    /// Whether the strategy has declared the tournament over.
    pub is_finished: bool,
}

impl<T: TournamentStrategy> TournamentScheduler<T> {
    /// The CPUs one match consumes: CPUs per agent times seats.
    pub open spec fn spec_match_cpus(&self) -> int {
        self.resources.cpus_per_agent * self.strategy.spec_players_per_match()
    }

    /// The RAM bytes one match consumes: RAM per agent times seats.
    pub open spec fn spec_match_ram(&self) -> int {
        self.resources.agent_ram * self.strategy.spec_players_per_match()
    }

    /// The pool is well formed, the strategy is, every buffered result
    /// satisfies the strategy, and every pending pairing seats exactly
    /// the players one match takes.
    pub open spec fn inv(&self) -> bool {
        &&& self.resources.wf()
        &&& self.strategy.inv()
        &&& forall|i: int|
            0 <= i < self.scores@.len() ==> self.strategy.result_wf((#[trigger] self.scores@[i])@)
        &&& forall|i: int|
            0 <= i < self.pending_matches@.len() ==> (#[trigger] self.pending_matches@[i])@.len()
                == self.strategy.spec_players_per_match()
    }

    /// Nothing more can happen without a result coming back: every
    /// pending pairing is blocked on resources, and an empty, idle
    /// scheduler has been declared finished.  Calling `advance` again in
    /// this state returns nothing and changes nothing.
    pub open spec fn settled(&self) -> bool {
        &&& (self.pending_matches@.len() > 0 ==> !can_take(
            &self.resources,
            self.spec_match_cpus(),
            self.spec_match_ram(),
        ))
        &&& (self.pending_matches@.len() == 0 && self.running_matches == 0 ==> self.is_finished)
    }

    /// Creates a scheduler over the given pool and strategy.
    pub fn new(resources: Constraints, strategy: T) -> (s: TournamentScheduler<T>)
        requires
            resources.wf(),
            strategy.inv(),
        ensures
            s.inv(),
            s.scores@.len() == 0,
            s.resources == resources,
            s.pending_matches@.len() == 0,
            s.strategy == strategy,
            s.running_matches == 0,
            !s.is_finished,
    {
        TournamentScheduler {
            scores: Vec::new(),
            resources,
            pending_matches: Vec::new(),
            strategy,
            running_matches: 0,
            is_finished: false,
        }
    }

    /// Starts a new round if the previous one has fully drained, then
    /// emits a match for every pending pairing the pool can serve.  Every
    /// emitted match holds a slice carved off the pool: the slices are
    /// pairwise disjoint, disjoint from what remains, and together with
    /// the remaining pool they are exactly what the pool held before.
    /// Afterwards the scheduler is settled, and calling `advance` on a
    /// settled scheduler returns nothing and changes nothing.
    pub fn advance(&mut self) -> (out: Vec<MatchSettings>)
        requires
            old(self).inv(),
            old(self).running_matches + old(self).pending_matches@.len() <= usize::MAX,
        ensures
            final(self).inv(),
            final(self).settled(),
            final(self).resources.same_limits(&old(self).resources),
            final(self).running_matches == old(self).running_matches + out@.len(),
            old(self).is_finished ==> final(self).is_finished,
            forall|k: int|
                0 <= k < out@.len() ==> (#[trigger] out@[k]).resources.wf()
                    && out@[k].resources.total_ram == old(self).spec_match_ram()
                    && out@[k].resources.cpus@.len() == old(self).spec_match_cpus()
                    && out@[k].resources.cpu_set().subset_of(old(self).resources.cpu_set())
                    && out@[k].ordered_player@.len() == old(self).strategy.spec_players_per_match(),
            forall|k1: int, k2: int|
                0 <= k1 < out@.len() && 0 <= k2 < out@.len() && k1 != k2
                    ==> (#[trigger] out@[k1]).resources.cpu_set().disjoint(
                    (#[trigger] out@[k2]).resources.cpu_set(),
                ),
            final(self).resources.cpu_set().union(emitted_cpus(out@)) == old(
                self,
            ).resources.cpu_set(),
            final(self).resources.cpu_set().disjoint(emitted_cpus(out@)),
            final(self).resources.total_ram + emitted_ram(out@) == old(self).resources.total_ram,
            old(self).settled() ==> out@.len() == 0 && final(self).scores@ == old(self).scores@
                && final(self).resources == old(self).resources && final(self).pending_matches@
                == old(self).pending_matches@ && final(self).strategy == old(self).strategy
                && final(self).running_matches == old(self).running_matches
                && final(self).is_finished == old(self).is_finished,
            exists|round: Seq<Vec<Agent>>, taken: Seq<bool>|
                #[trigger] selected(round, taken, true) == out@.map_values(
                    |m: MatchSettings| m.ordered_player,
                ) && selected(round, taken, false) == final(self).pending_matches@ && taken.len()
                    == round.len() && out@.len() + final(self).pending_matches@.len()
                    == round.len() && ({
                    if old(self).running_matches == 0 && old(self).pending_matches@.len() == 0
                        && !old(self).is_finished {
                        &&& old(self).strategy.round_relation(
                            old(self).scores@,
                            final(self).strategy,
                            round,
                        )
                        &&& final(self).scores@.len() == 0
                        &&& (final(self).is_finished <==> round.len() == 0)
                    } else {
                        &&& round == old(self).pending_matches@
                        &&& final(self).strategy == old(self).strategy
                        &&& final(self).scores@ == old(self).scores@
                        &&& final(self).is_finished == old(self).is_finished
                    }
                }),
    {
        let ghost entry = *old(self);
        // Generate a new round when the previous one has fully drained.
        if self.running_matches == 0 && self.pending_matches.len() == 0 && !self.is_finished {
            let mut results: Vec<MatchResult> = Vec::new();
            core::mem::swap(&mut results, &mut self.scores);
            let pending = self.strategy.advance_round(results);
            self.pending_matches = pending;
            if self.pending_matches.len() == 0 {
                self.is_finished = true;
            }
        }
        let ghost mid = *self;
        let ghost pool0 = self.resources;
        // How much one match needs; a product beyond `usize` can never be
        // served, so nothing is emitted then.
        let players = self.strategy.players_per_match();
        let cpu_per_match = self.resources.cpus_per_agent.checked_mul(players);
        let ram_per_match = self.resources.agent_ram.checked_mul(players);
        let mut out: Vec<MatchSettings> = Vec::new();
        proof {
            assert(self.resources == entry.resources);
            assert(players as int == entry.strategy.spec_players_per_match());
        }
        match (cpu_per_match, ram_per_match) {
            (Some(need_cpus), Some(need_ram)) => {
                let mut remaining: Vec<Vec<Agent>> = Vec::new();
                let mut pending: Vec<Vec<Agent>> = Vec::new();
                core::mem::swap(&mut pending, &mut self.pending_matches);
                let ghost pending0 = pending@;
                let ghost mut taken: Seq<bool> = Seq::empty();
                let plen = pending.len();
                let mut i: usize = 0;
                proof {
                    assert(pending0.len() == plen);
                    assert(need_cpus as int == entry.spec_match_cpus());
                    assert(need_ram as int == entry.spec_match_ram());
                    assert(emitted_cpus(out@) =~= Set::<u8>::empty());
                    assert(pool0.cpu_set().union(emitted_cpus(out@)) =~= pool0.cpu_set());
                    assert(pending0.skip(0) =~= pending0);
                }
                while pending.len() > 0
                    invariant
                        need_cpus as int == entry.spec_match_cpus(),
                        need_ram as int == entry.spec_match_ram(),
                        i + pending@.len() == pending0.len(),
                        pending@ == pending0.skip(i as int),
                        self.resources.wf(),
                        self.resources.same_limits(&pool0),
                        forall|t: int|
                            0 <= t < pending0.len() ==> (#[trigger] pending0[t])@.len()
                                == entry.strategy.spec_players_per_match(),
                        forall|k: int|
                            0 <= k < out@.len() ==> (#[trigger] out@[k]).resources.wf()
                                && out@[k].resources.total_ram == entry.spec_match_ram()
                                && out@[k].resources.cpus@.len() == entry.spec_match_cpus()
                                && out@[k].resources.cpu_set().subset_of(pool0.cpu_set())
                                && out@[k].ordered_player@.len()
                                == entry.strategy.spec_players_per_match(),
                        forall|k1: int, k2: int|
                            0 <= k1 < out@.len() && 0 <= k2 < out@.len() && k1 != k2
                                ==> (#[trigger] out@[k1]).resources.cpu_set().disjoint(
                                (#[trigger] out@[k2]).resources.cpu_set(),
                            ),
                        self.resources.cpu_set().union(emitted_cpus(out@)) == pool0.cpu_set(),
                        self.resources.cpu_set().disjoint(emitted_cpus(out@)),
                        self.resources.total_ram + emitted_ram(out@) == pool0.total_ram,
                        forall|t: int|
                            0 <= t < remaining@.len() ==> (#[trigger] remaining@[t])@.len()
                                == entry.strategy.spec_players_per_match(),
                        remaining@.len() > 0 ==> !can_take(
                            &self.resources,
                            entry.spec_match_cpus(),
                            entry.spec_match_ram(),
                        ),
                        out@.len() + remaining@.len() == i,
                        pending0.len() <= usize::MAX,
                        taken.len() == i,
                        out@.map_values(|m: MatchSettings| m.ordered_player) == selected(
                            pending0.take(i as int),
                            taken,
                            true,
                        ),
                        remaining@ == selected(pending0.take(i as int), taken, false),
                        self.running_matches == mid.running_matches,
                        self.scores@ == mid.scores@,
                        self.strategy == mid.strategy,
                        self.is_finished == mid.is_finished,
                        mid.strategy.inv(),
                        mid.strategy.spec_players_per_match()
                            == entry.strategy.spec_players_per_match(),
                        forall|t: int|
                            0 <= t < mid.scores@.len() ==> mid.strategy.result_wf(
                                (#[trigger] mid.scores@[t])@,
                            ),
                        entry.settled() ==> self.resources == entry.resources && out@.len() == 0
                            && remaining@ == pending0.take(i as int) && pending0
                            == entry.pending_matches@,
                    decreases pending@.len(),
                {
                    let ghost out_pre = out@;
                    let ghost pool_pre = self.resources;
                    let players_list = pending.remove(0);
                    proof {
                        assert(pending0.skip(i as int)[0] == pending0[i as int]);
                        assert(pending0.skip(i as int).subrange(
                            1,
                            pending0.skip(i as int).len() as int,
                        ) =~= pending0.skip(i + 1));
                    }
                    proof {
                        if entry.settled() {
                            assert(pending0.len() > 0);
                            assert(!can_take(
                                &self.resources,
                                entry.spec_match_cpus(),
                                entry.spec_match_ram(),
                            ));
                        }
                    }
                    let slice = self.resources.try_take(need_cpus, need_ram);
                    proof {
                        if entry.settled() {
                            assert(slice is None);
                            assert(pending0.take(i + 1).drop_last() =~= pending0.take(i as int));
                        }
                    }
                    match slice {
                        Some(res) => {
                            let ghost taken_pre = taken;
                            out.push(MatchSettings { ordered_player: players_list, resources: res });
                            proof {
                                taken = taken.push(true);
                                assert(pending0.take(i + 1).drop_last() =~= pending0.take(i as int));
                                assert(taken.drop_last() =~= taken_pre);
                                assert(out@.map_values(|m: MatchSettings| m.ordered_player)
                                    =~= selected(pending0.take(i + 1), taken, true)) by {
                                    assert(out@.map_values(
                                        |m: MatchSettings| m.ordered_player,
                                    ).drop_last() =~= out_pre.map_values(
                                        |m: MatchSettings| m.ordered_player,
                                    ));
                                    assert(out@.last().ordered_player == pending0[i as int]);
                                }
                                assert(remaining@ =~= selected(pending0.take(i + 1), taken, false));
                                assert(out@.drop_last() =~= out_pre);
                                assert(out@.last().resources == res);
                                assert(emitted_cpus(out@) =~= emitted_cpus(out_pre).union(
                                    res.cpu_set(),
                                ));
                                assert(self.resources.cpu_set().union(emitted_cpus(out@))
                                    =~= pool0.cpu_set());
                                assert(self.resources.cpu_set().disjoint(emitted_cpus(out@)));
                                assert forall|k: int|
                                    0 <= k < out_pre.len() implies (#[trigger] out_pre[k]).resources.cpu_set().disjoint(
                                    res.cpu_set(),
                                ) by {
                                    assert(res.cpu_set().subset_of(pool_pre.cpu_set()));
                                    assert(pool_pre.cpu_set().disjoint(emitted_cpus(out_pre)));
                                    assert forall|x: u8|
                                        out_pre[k].resources.cpu_set().contains(x) implies !res.cpu_set().contains(
                                        x,
                                    ) by {
                                        lemma_emitted_cpus_member(out_pre, k, x);
                                    }
                                }
                            }
                        },
                        None => {
                            let ghost rem_pre = remaining@;
                            let ghost taken_pre = taken;
                            remaining.push(players_list);
                            proof {
                                taken = taken.push(false);
                                assert(pending0.take(i + 1).drop_last() =~= pending0.take(i as int));
                                assert(taken.drop_last() =~= taken_pre);
                                assert(out@.map_values(|m: MatchSettings| m.ordered_player)
                                    =~= selected(pending0.take(i + 1), taken, true));
                                assert(remaining@.drop_last() =~= rem_pre);
                                assert(remaining@.last() == pending0[i as int]);
                                assert(remaining@ =~= selected(pending0.take(i + 1), taken, false));
                            }
                        },
                    }
                    i += 1;
                }
                self.pending_matches = remaining;
                proof {
                    assert(out@.len() <= pending0.len());
                    if entry.running_matches == 0 && entry.pending_matches@.len() == 0
                        && !entry.is_finished {
                        assert(self.running_matches == 0);
                    } else {
                        assert(pending0 == entry.pending_matches@);
                    }
                    assert(self.running_matches + out@.len() <= usize::MAX);
                    // The emitted matches and the kept queue split the round.
                    assert(pending0.take(plen as int) =~= pending0);
                    assert(out@.map_values(|m: MatchSettings| m.ordered_player) == selected(
                        pending0,
                        taken,
                        true,
                    ));
                    assert(self.pending_matches@ == selected(pending0, taken, false));
                    if entry.running_matches == 0 && entry.pending_matches@.len() == 0
                        && !entry.is_finished {
                        assert(entry.strategy.round_relation(
                            entry.scores@,
                            self.strategy,
                            pending0,
                        ));
                        assert(self.scores@.len() == 0);
                        assert(self.is_finished <==> pending0.len() == 0);
                    } else {
                        assert(pending0 == entry.pending_matches@);
                        assert(self.strategy == entry.strategy);
                        assert(self.scores@ == entry.scores@);
                        assert(self.is_finished == entry.is_finished);
                    }
                    if entry.settled() {
                        assert(pending0.take(pending0.len() as int) =~= pending0);
                        assert(self.pending_matches@ == entry.pending_matches@);
                    }
                    if self.pending_matches@.len() == 0 && self.running_matches + out@.len()
                        == 0 {
                        assert(out@.len() == 0 && remaining@.len() == 0);
                        assert(pending0.len() == 0);
                        if entry.running_matches == 0 && entry.pending_matches@.len() == 0
                            && !entry.is_finished {
                            assert(mid.is_finished);
                        } else {
                            assert(entry.is_finished);
                        }
                        assert(self.is_finished);
                    }
                }
            },
            _ => {
                // A single match would need more CPUs or RAM than a
                // machine can address; nothing can be scheduled.
                let pool_cpus_len = self.resources.cpus.len();
                proof {
                    assert(self.resources.cpus@.len() == pool_cpus_len);
                    if cpu_per_match.is_none() {
                        assert(self.resources.cpus_per_agent * players > usize::MAX);
                        assert(entry.spec_match_cpus() > usize::MAX);
                    } else {
                        assert(self.resources.agent_ram * players > usize::MAX);
                        assert(entry.spec_match_ram() > usize::MAX);
                    }
                    assert(!can_take(
                        &self.resources,
                        entry.spec_match_cpus(),
                        entry.spec_match_ram(),
                    )) by {
                        assert(self.resources.cpus@.len() <= usize::MAX);
                        assert(self.resources.total_ram <= usize::MAX);
                        assert(entry.spec_match_cpus() > usize::MAX || entry.spec_match_ram()
                            > usize::MAX);
                    }
                    assert(emitted_cpus(out@) =~= Set::<u8>::empty());
                    assert(self.resources.cpu_set().union(emitted_cpus(out@))
                        =~= self.resources.cpu_set());
                    assert(self.running_matches + out@.len() <= usize::MAX);
                    // Nothing was emitted: the whole round stays queued.
                    let round0 = self.pending_matches@;
                    let taken0 = Seq::new(round0.len(), |q: int| false);
                    lemma_selected_all_false(round0, taken0);
                    assert(out@.map_values(|m: MatchSettings| m.ordered_player) =~= Seq::<
                        Vec<Agent>,
                    >::empty());
                    assert(out@.map_values(|m: MatchSettings| m.ordered_player) == selected(
                        round0,
                        taken0,
                        true,
                    ));
                    assert(self.pending_matches@ == selected(round0, taken0, false));
                    if entry.running_matches == 0 && entry.pending_matches@.len() == 0
                        && !entry.is_finished {
                        assert(entry.strategy.round_relation(entry.scores@, self.strategy, round0));
                        assert(self.scores@.len() == 0);
                        assert(self.is_finished <==> round0.len() == 0);
                    } else {
                        assert(round0 == entry.pending_matches@);
                        assert(self.strategy == entry.strategy);
                        assert(self.scores@ == entry.scores@);
                        assert(self.is_finished == entry.is_finished);
                    }
                }
            },
        }
        self.running_matches = self.running_matches + out.len();
        out
    }

    /// Books a finished match: its per-seat results join the round's
    /// buffer, its resource slice returns to the pool, and the scheduler
    /// immediately tries to start more matches.
    pub fn on_result(&mut self, result: RunnerResult) -> (out: Vec<MatchSettings>)
        requires
            old(self).inv(),
            old(self).running_matches > 0,
            old(self).strategy.result_wf(result.results@),
            result.resources_freed.wf(),
            old(self).resources.total_ram + result.resources_freed.total_ram <= usize::MAX,
            old(self).running_matches + old(self).pending_matches@.len() <= usize::MAX,
        ensures
            final(self).inv(),
            final(self).settled(),
            final(self).running_matches == old(self).running_matches - 1 + out@.len(),
            final(self).resources.cpu_set().union(emitted_cpus(out@)) == old(
                self,
            ).resources.cpu_set().union(result.resources_freed.cpu_set()),
            final(self).resources.cpu_set().disjoint(emitted_cpus(out@)),
            final(self).resources.total_ram + emitted_ram(out@) == old(self).resources.total_ram
                + result.resources_freed.total_ram,
            final(self).resources.same_limits(&old(self).resources),
            forall|k: int|
                0 <= k < out@.len() ==> (#[trigger] out@[k]).resources.wf()
                    && out@[k].resources.total_ram == old(self).spec_match_ram()
                    && out@[k].resources.cpus@.len() == old(self).spec_match_cpus()
                    && out@[k].resources.cpu_set().subset_of(
                    old(self).resources.cpu_set().union(result.resources_freed.cpu_set()),
                ) && out@[k].ordered_player@.len() == old(self).strategy.spec_players_per_match(),
            forall|k1: int, k2: int|
                0 <= k1 < out@.len() && 0 <= k2 < out@.len() && k1 != k2
                    ==> (#[trigger] out@[k1]).resources.cpu_set().disjoint(
                    (#[trigger] out@[k2]).resources.cpu_set(),
                ),
            exists|round: Seq<Vec<Agent>>, taken: Seq<bool>|
                #[trigger] selected(round, taken, true) == out@.map_values(
                    |m: MatchSettings| m.ordered_player,
                ) && selected(round, taken, false) == final(self).pending_matches@ && taken.len()
                    == round.len() && out@.len() + final(self).pending_matches@.len()
                    == round.len() && ({
                    if old(self).running_matches == 1 && old(self).pending_matches@.len() == 0
                        && !old(self).is_finished {
                        &&& old(self).strategy.round_relation(
                            old(self).scores@.push(result.results),
                            final(self).strategy,
                            round,
                        )
                        &&& final(self).scores@.len() == 0
                        &&& (final(self).is_finished <==> round.len() == 0)
                    } else {
                        &&& round == old(self).pending_matches@
                        &&& final(self).strategy == old(self).strategy
                        &&& final(self).scores@ == old(self).scores@.push(result.results)
                        &&& final(self).is_finished == old(self).is_finished
                    }
                }),
    {
        self.scores.push(result.results);
        self.resources.add(result.resources_freed);
        self.running_matches = self.running_matches - 1;
        let ghost mid = *self;
        let out = self.advance();
        proof {
            assert(self.resources.cpu_set().union(emitted_cpus(out@)) =~= old(
                self,
            ).resources.cpu_set().union(result.resources_freed.cpu_set()));
            // Rebase advance's round split onto the state this call
            // started from: the buffer gained exactly this result.
            assert(mid.scores@ == old(self).scores@.push(result.results));
            assert(mid.spec_match_ram() == old(self).spec_match_ram());
            assert(mid.spec_match_cpus() == old(self).spec_match_cpus());
            assert(mid.strategy.spec_players_per_match() == old(
                self,
            ).strategy.spec_players_per_match());
            assert(mid.resources.cpu_set() == old(self).resources.cpu_set().union(
                result.resources_freed.cpu_set(),
            ));
            let (round, taken) = choose|round: Seq<Vec<Agent>>, taken: Seq<bool>|
                #[trigger] selected(round, taken, true) == out@.map_values(
                    |m: MatchSettings| m.ordered_player,
                ) && selected(round, taken, false) == self.pending_matches@ && taken.len()
                    == round.len() && out@.len() + self.pending_matches@.len() == round.len() && ({
                    if mid.running_matches == 0 && mid.pending_matches@.len() == 0
                        && !mid.is_finished {
                        &&& mid.strategy.round_relation(mid.scores@, self.strategy, round)
                        &&& self.scores@.len() == 0
                        &&& (self.is_finished <==> round.len() == 0)
                    } else {
                        &&& round == mid.pending_matches@
                        &&& self.strategy == mid.strategy
                        &&& self.scores@ == mid.scores@
                        &&& self.is_finished == mid.is_finished
                    }
                });
            assert(selected(round, taken, true) == out@.map_values(
                |m: MatchSettings| m.ordered_player,
            ));
        }
        out
    }

    /// True when all tournament matches have run and finished.
    pub fn is_finished(&self) -> (r: bool)
        ensures
            r == self.is_finished,
    {
        self.is_finished
    }

    /// The final scores, as the strategy reports them: exactly the
    /// strategy's table, one entry per agent.
    pub fn final_scores(&self) -> (scores: Vec<(Agent, T::FinalScore)>)
        requires
            self.inv(),
        ensures
            self.strategy.final_scores_relation(scores@),
    {
        self.strategy.get_final_scores()
    }
}

/// A CPU held by one emitted match is held by the batch.
proof fn lemma_emitted_cpus_member(ms: Seq<MatchSettings>, k: int, x: u8)
    requires
        0 <= k < ms.len(),
        ms[k].resources.cpu_set().contains(x),
    ensures
        emitted_cpus(ms).contains(x),
    decreases ms.len(),
{
    if k == ms.len() - 1 {
    } else {
        lemma_emitted_cpus_member(ms.drop_last(), k, x);
    }
}

} // verus!
