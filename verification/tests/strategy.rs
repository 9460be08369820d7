//! The tournament strategies: pairing shape, scoring, byes and
//! termination.

use ai_tournament::agent::Agent;
use ai_tournament::tournament_strategy::RoundRobinTournament;
use ai_tournament::tournament_strategy::SinglePlayerTournament;
use ai_tournament::tournament_strategy::SwissTournament;
use ai_tournament::tournament_strategy::TournamentStrategy;

fn agent(name: &str, id: u32) -> Agent {
    Agent::new(name.to_string(), None, None, id, None)
}

fn roster(n: u32) -> Vec<Agent> {
    let mut v = Vec::new();
    for i in 0..n {
        v.push(agent(&format!("agent{}", i), i + 1));
    }
    v
}

#[test]
fn round_robin_symmetric_pairing_count() {
    let mut t = RoundRobinTournament::new(true);
    t.add_agents(roster(4));
    let pending = t.advance_round(Vec::new());
    // Strictly one pairing per unordered pair: 4 * 3 / 2.
    assert_eq!(pending.len(), 6);
    for pairing in &pending {
        assert_eq!(pairing.len(), 2);
        assert_ne!(pairing[0].id, pairing[1].id);
    }
    assert_eq!(t.players_per_match(), 2);
}

#[test]
fn round_robin_asymmetric_pairing_count() {
    let mut t = RoundRobinTournament::new(false);
    t.add_agents(roster(4));
    let pending = t.advance_round(Vec::new());
    // Both seat orders of every pair: 4 * 3.
    assert_eq!(pending.len(), 12);
    for pairing in &pending {
        assert_ne!(pairing[0].id, pairing[1].id);
    }
}

#[test]
fn round_robin_scores_and_finish() {
    let mut t = RoundRobinTournament::new(true);
    t.add_agents(roster(2));
    let pending = t.advance_round(Vec::new());
    assert_eq!(pending.len(), 1);
    // agent1 beats agent2.
    let results = vec![vec![(agent("agent0", 1), 3i64), (agent("agent1", 2), 1i64)]];
    let after = t.advance_round(results);
    assert_eq!(after.len(), 0);
    let finals = t.get_final_scores();
    assert_eq!(finals.len(), 2);
    for (a, s) in &finals {
        if a.id == 1 {
            assert_eq!(s.num_win, 1);
            assert_eq!(s.num_lose, 0);
        } else {
            assert_eq!(s.num_lose, 1);
            assert_eq!(s.num_win, 0);
        }
    }
}

#[test]
fn round_robin_draw_counted_for_everyone() {
    let mut t = RoundRobinTournament::new(true);
    t.add_agents(roster(2));
    let _ = t.advance_round(Vec::new());
    let results = vec![vec![(agent("agent0", 1), 2i64), (agent("agent1", 2), 2i64)]];
    let _ = t.advance_round(results);
    for (_, s) in &t.get_final_scores() {
        assert_eq!(s.num_draw, 1);
        assert_eq!(s.num_win, 0);
        assert_eq!(s.num_lose, 0);
    }
}

#[test]
fn swiss_single_agent_gets_bye() {
    let mut t = SwissTournament::new(1, 1);
    t.add_agents(roster(1));
    let pending = t.advance_round(Vec::new());
    // One agent cannot be paired; the round yields no matches and a bye.
    assert_eq!(pending.len(), 0);
    let finals = t.get_final_scores();
    assert_eq!(finals.len(), 1);
    assert_eq!(finals[0].1.num_win, 1);
}

#[test]
fn swiss_pairings_alternate_sides() {
    let mut t = SwissTournament::new(1, 2);
    t.add_agents(roster(2));
    let pending = t.advance_round(Vec::new());
    // One pair, two games, sides swapped in the second.
    assert_eq!(pending.len(), 2);
    assert_eq!(pending[0][0].id, pending[1][1].id);
    assert_eq!(pending[0][1].id, pending[1][0].id);
    assert_ne!(pending[0][0].id, pending[0][1].id);
}

#[test]
fn swiss_round_count_per_round() {
    // Four agents, eight games per pair: each round is 2 pairs * 8 games.
    let mut t = SwissTournament::new(3, 8);
    t.add_agents(roster(4));
    let pending = t.advance_round(Vec::new());
    assert_eq!(pending.len(), 16);
    for pairing in &pending {
        assert_eq!(pairing.len(), 2);
        assert_ne!(pairing[0].id, pairing[1].id);
    }
}

#[test]
fn swiss_termination_after_max_rounds() {
    let mut t = SwissTournament::new(2, 1);
    t.add_agents(roster(2));
    let first = t.advance_round(Vec::new());
    assert_eq!(first.len(), 1);
    let r1 = vec![vec![
        (first[0][0].clone(), 1i64),
        (first[0][1].clone(), 0i64),
    ]];
    let second = t.advance_round(r1);
    // Both agents have met, so the second round is byes only.
    assert_eq!(second.len(), 0);
    let third = t.advance_round(Vec::new());
    assert_eq!(third.len(), 0);
}

#[test]
fn swiss_aggregates_pair_results_once() {
    let mut t = SwissTournament::new(1, 2);
    t.add_agents(roster(2));
    let pending = t.advance_round(Vec::new());
    assert_eq!(pending.len(), 2);
    // Two games of the same pair: 3-1 and 0-1; aggregated 3-2, one win.
    let a = pending[0][0].clone();
    let b = pending[0][1].clone();
    let results = vec![
        vec![(a.clone(), 3i64), (b.clone(), 1i64)],
        vec![(b.clone(), 1i64), (a.clone(), 0i64)],
    ];
    let _ = t.advance_round(results);
    let finals = t.get_final_scores();
    for (ag, s) in &finals {
        if ag.id == a.id {
            assert_eq!(s.num_win, 1);
            assert_eq!(s.num_lose, 0);
            assert_eq!(s.num_draw, 0);
        } else {
            assert_eq!(s.num_lose, 1);
        }
    }
}

#[test]
fn swiss_auto_rounds_is_log2() {
    // 5 agents: ceil(log2(5)) = 3 rounds.
    let mut t = SwissTournament::with_auto_rounds(1);
    t.add_agents(roster(5));
    assert_eq!(t.max_rounds, 3);
    let mut u = SwissTournament::with_auto_rounds(1);
    u.add_agents(roster(1));
    assert_eq!(u.max_rounds, 0);
}

#[test]
fn swiss_tie_breaker_is_median() {
    // Three agents; give agent1 two adversaries with known points.
    let mut t = SwissTournament::new(1, 1);
    t.add_agents(roster(3));
    let _ = t.advance_round(Vec::new());
    let results = vec![
        vec![(agent("agent0", 1), 2i64), (agent("agent1", 2), 0i64)],
        vec![(agent("agent0", 1), 2i64), (agent("agent2", 3), 0i64)],
    ];
    let _ = t.advance_round(results);
    let finals = t.get_final_scores();
    for (a, s) in &finals {
        if a.id == 1 {
            // Two adversaries: their points minus min and max.
            assert_eq!(s.num_win, 2);
            let adv_points = [
                finals.iter().find(|(x, _)| x.id == 2).unwrap().1.num_win * 2,
                finals.iter().find(|(x, _)| x.id == 3).unwrap().1.num_win * 2,
            ];
            let expected = adv_points.iter().sum::<u32>()
                - adv_points.iter().min().unwrap()
                - adv_points.iter().max().unwrap();
            assert_eq!(s.tie_breaker, expected);
        }
    }
}

#[test]
fn single_player_emits_games_per_agent() {
    let mut t = SinglePlayerTournament::new(3);
    t.add_agents(roster(2));
    assert_eq!(t.players_per_match(), 1);
    let pending = t.advance_round(Vec::new());
    assert_eq!(pending.len(), 6);
    for solo in &pending {
        assert_eq!(solo.len(), 1);
    }
    // Grouped per agent, in roster order.
    assert_eq!(pending[0][0].id, pending[2][0].id);
    assert_ne!(pending[0][0].id, pending[3][0].id);
}

#[test]
fn single_player_collects_score_lists() {
    let mut t = SinglePlayerTournament::new(3);
    t.add_agents(roster(1));
    let pending = t.advance_round(Vec::new());
    assert_eq!(pending.len(), 3);
    let a = pending[0][0].clone();
    let results = vec![
        vec![(a.clone(), 1i64)],
        vec![(a.clone(), 1i64)],
        vec![(a.clone(), 1i64)],
    ];
    let after = t.advance_round(results);
    assert_eq!(after.len(), 0);
    let finals = t.get_final_scores();
    assert_eq!(finals.len(), 1);
    assert_eq!(finals[0].1 .0, vec![1i64, 1, 1]);
}
