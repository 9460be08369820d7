//! The scheduler: resource-gated match starts, conservation, and
//! idempotence when nothing has changed.

use ai_tournament::agent::Agent;
use ai_tournament::constraints::ConstraintsBuilder;
use ai_tournament::match_runner::RunnerResult;
use ai_tournament::tournament_scheduler::TournamentScheduler;
use ai_tournament::tournament_strategy::SwissTournament;
use ai_tournament::tournament_strategy::TournamentStrategy;

fn agent(name: &str, id: u32) -> Agent {
    Agent::new(name.to_string(), None, None, id, None)
}

#[test]
fn resource_contention_limits_concurrency() {
    // 4 CPUs, one per agent, two-player matches: exactly 2 matches can
    // run at once; the rest of the 5 games of the pair must wait.
    let pool = ConstraintsBuilder::new()
        .with_cpu_list("0-3")
        .with_max_total_ram(4)
        .with_ram_per_agent(1)
        .build_with_system(0, 0)
        .unwrap();
    let mut strategy = SwissTournament::new(1, 5);
    strategy.add_agents(vec![agent("a", 1), agent("b", 2)]);
    let mut sched = TournamentScheduler::new(pool, strategy);

    let first = sched.advance();
    assert_eq!(first.len(), 2);
    assert_eq!(sched.running_matches, 2);
    assert_eq!(sched.pending_matches.len(), 3);
    // The two running matches hold disjoint CPU sets.
    for cpu in &first[0].resources.cpus {
        assert!(!first[1].resources.cpus.contains(cpu));
    }
    assert_eq!(first[0].resources.cpus.len(), 2);
    assert_eq!(first[0].resources.total_ram, 2_000_000);
    assert_eq!(sched.resources.cpus.len(), 0);

    // With no result received and nothing freed, advancing again yields
    // nothing and changes nothing.
    let again = sched.advance();
    assert_eq!(again.len(), 0);
    assert_eq!(sched.running_matches, 2);
    assert_eq!(sched.pending_matches.len(), 3);

    // One match finishes: its slice comes back and the next match starts.
    let mut batch = first;
    let done = batch.remove(0);
    let results = vec![
        (done.ordered_player[0].clone(), 1i64),
        (done.ordered_player[1].clone(), 0i64),
    ];
    let started = sched.on_result(RunnerResult {
        results,
        resources_freed: done.resources,
        errors: Vec::new(),
    });
    assert_eq!(started.len(), 1);
    assert_eq!(sched.running_matches, 2);
    assert_eq!(sched.pending_matches.len(), 2);
    assert!(!sched.is_finished());
}

#[test]
fn unservable_pairings_stay_pending() {
    // One CPU cannot host a two-player match with one CPU per agent.
    let pool = ConstraintsBuilder::new()
        .with_cpu_list("0")
        .with_max_total_ram(4)
        .with_ram_per_agent(1)
        .build_with_system(0, 0)
        .unwrap();
    let mut strategy = SwissTournament::new(1, 1);
    strategy.add_agents(vec![agent("a", 1), agent("b", 2)]);
    let mut sched = TournamentScheduler::new(pool, strategy);
    let out = sched.advance();
    assert_eq!(out.len(), 0);
    assert_eq!(sched.pending_matches.len(), 1);
    assert_eq!(sched.running_matches, 0);
    assert!(!sched.is_finished());
}

#[test]
fn scheduler_finishes_when_the_strategy_is_done() {
    let pool = ConstraintsBuilder::new()
        .with_cpu_list("0-3")
        .with_max_total_ram(4)
        .with_ram_per_agent(1)
        .build_with_system(0, 0)
        .unwrap();
    let mut strategy = SwissTournament::new(1, 1);
    strategy.add_agents(vec![agent("a", 1), agent("b", 2)]);
    let mut sched = TournamentScheduler::new(pool, strategy);

    let first = sched.advance();
    assert_eq!(first.len(), 1);
    let done = &first[0];
    let results = vec![
        (done.ordered_player[0].clone(), 2i64),
        (done.ordered_player[1].clone(), 0i64),
    ];
    let started = sched.on_result(RunnerResult {
        results,
        resources_freed: first[0].resources.clone(),
        errors: Vec::new(),
    });
    // The single round is over: nothing new starts and the tournament
    // is declared finished.
    assert_eq!(started.len(), 0);
    assert!(sched.is_finished());
    let finals = sched.final_scores();
    assert_eq!(finals.len(), 2);
    let winner = finals.iter().find(|(a, _)| a.id == 1).unwrap();
    assert_eq!(winner.1.num_win, 1);
}
