//! The match bookkeeping: budgets, deadlines, failure classification,
//! and resource hand-back.

use ai_tournament::agent::Agent;
use ai_tournament::constraints::Constraints;
use ai_tournament::match_runner::MatchRunner;
use ai_tournament::match_runner::MatchSettings;
use ai_tournament::match_runner::SeatFailure;
use ai_tournament::match_runner::TurnResponse;

fn agent(name: &str, id: u32) -> Agent {
    Agent::new(name.to_string(), None, None, id, None)
}

fn slice(time_budget: u64, action_time: u64) -> Constraints {
    Constraints {
        total_ram: 1_000_000,
        agent_ram: 500_000,
        cpus: vec![0, 1],
        cpus_per_agent: 1,
        time_budget,
        action_time,
    }
}

fn settings(time_budget: u64, action_time: u64) -> MatchSettings {
    MatchSettings {
        ordered_player: vec![agent("a", 1), agent("b", 2)],
        resources: slice(time_budget, action_time),
    }
}

#[test]
fn startup_failures_are_recorded_per_seat() {
    let r = MatchRunner::new(settings(1_000, 100), vec![true, false]);
    assert!(r.is_alive(0));
    assert!(!r.is_alive(1));
    assert!(r.any_alive());
    assert_eq!(r.errors.len(), 1);
    assert!(matches!(r.errors[0], SeatFailure::StartupFailed { seat: 1 }));
}

#[test]
fn turn_deadline_is_min_of_timeout_and_budget() {
    let mut r = MatchRunner::new(settings(1_000, 300), vec![true, true]);
    assert_eq!(r.turn_deadline(0), 300);
    r.record_elapsed(0, 900);
    // 100 microseconds of budget left: the deadline shrinks to it.
    assert_eq!(r.turn_deadline(0), 100);
    assert_eq!(r.turn_deadline(1), 300);
}

#[test]
fn budgets_subtract_saturating() {
    let mut r = MatchRunner::new(settings(1_000, 300), vec![true, true]);
    r.record_elapsed(0, 400);
    assert_eq!(r.budgets[0], 600);
    r.record_elapsed(0, 10_000);
    assert_eq!(r.budgets[0], 0);
    assert_eq!(r.budgets[1], 1_000);
    // Budgets never grow: the cumulative subtraction stays within the
    // time budget.
    assert_eq!(r.turn_deadline(0), 0);
}

#[test]
fn zero_action_timeout_eliminates_on_first_turn() {
    // action_timeout = 0: the deadline is 0 and no answer can arrive.
    // The deadline sits below a tenth of the positive budget, so the
    // elimination is silent.
    let mut r = MatchRunner::new(settings(1_000, 0), vec![true, true]);
    r.begin_turn();
    let d = r.turn_deadline(0);
    assert_eq!(d, 0);
    let apply = r.record_response(0, TurnResponse::NoResponse, d);
    assert!(!apply);
    assert!(!r.is_alive(0));
    assert_eq!(r.errors.len(), 0);
}

#[test]
fn zero_time_budget_eliminates_on_first_turn() {
    let mut r = MatchRunner::new(settings(0, 500), vec![true, true]);
    r.begin_turn();
    let d = r.turn_deadline(1);
    assert_eq!(d, 0);
    let apply = r.record_response(1, TurnResponse::NoResponse, d);
    assert!(!apply);
    assert!(!r.is_alive(1));
    // The deadline never reached the action timeout: a spent budget is
    // not an error.
    assert_eq!(r.errors.len(), 0);
}

#[test]
fn silent_seat_times_out_and_is_reported() {
    // A connected agent that never writes: the full deadline passes and
    // reaches both the action timeout and a tenth of the budget.
    let mut r = MatchRunner::new(settings(2_000, 500), vec![true, true]);
    r.begin_turn();
    let d = r.turn_deadline(0);
    assert_eq!(d, 500);
    let apply = r.record_response(0, TurnResponse::NoResponse, d);
    assert!(!apply);
    assert!(!r.is_alive(0));
    assert!(matches!(
        r.errors[0],
        SeatFailure::ResponseTimeout { seat: 0, turn: 1, deadline_us: 500 }
    ));
    // The other seat plays on.
    assert!(r.any_alive());
}

#[test]
fn full_deadline_timeout_is_silent_under_a_large_budget() {
    // The same silent agent, but the budget is so large that one action
    // timeout is below a tenth of it: the elimination is not an error.
    let mut r = MatchRunner::new(settings(10_000, 500), vec![true, true]);
    r.begin_turn();
    let d = r.turn_deadline(0);
    assert_eq!(d, 500);
    let apply = r.record_response(0, TurnResponse::NoResponse, d);
    assert!(!apply);
    assert!(!r.is_alive(0));
    assert_eq!(r.errors.len(), 0);
}

#[test]
fn exhausted_budget_timeout_is_suppressed() {
    let mut r = MatchRunner::new(settings(10_000, 500), vec![true, true]);
    // The seat spends almost its whole budget over earlier turns.
    r.record_elapsed(0, 9_990);
    r.begin_turn();
    let d = r.turn_deadline(0);
    assert_eq!(d, 10);
    let apply = r.record_response(0, TurnResponse::NoResponse, d);
    assert!(!apply);
    assert!(!r.is_alive(0));
    // 10 < action_timeout and 10 < time_budget / 10: a normal exhaustion,
    // not an error.
    assert_eq!(r.errors.len(), 0);
}

#[test]
fn empty_response_is_a_crash() {
    let mut r = MatchRunner::new(settings(10_000, 500), vec![true, true]);
    r.begin_turn();
    let apply = r.record_response(
        0,
        TurnResponse::Received { len: 0, utf8: true, parsed: false, text: String::new() },
        500,
    );
    assert!(!apply);
    assert!(!r.is_alive(0));
    assert!(matches!(r.errors[0], SeatFailure::EmptyResponse { seat: 0, turn: 1 }));
}

#[test]
fn unparsable_and_non_utf8_responses_eliminate() {
    let mut r = MatchRunner::new(settings(10_000, 500), vec![true, true]);
    r.begin_turn();
    let apply = r.record_response(
        0,
        TurnResponse::Received { len: 4, utf8: true, parsed: false, text: "zzzz".to_string() },
        500,
    );
    assert!(!apply);
    assert!(matches!(r.errors[0], SeatFailure::NotAnAction { seat: 0, turn: 1, .. }));
    let apply2 = r.record_response(
        1,
        TurnResponse::Received { len: 4, utf8: false, parsed: false, text: String::new() },
        500,
    );
    assert!(!apply2);
    assert!(matches!(r.errors[1], SeatFailure::NonUtf8 { seat: 1, turn: 1 }));
    assert!(!r.any_alive());
}

#[test]
fn parsed_response_keeps_the_seat_alive() {
    let mut r = MatchRunner::new(settings(10_000, 500), vec![true, true]);
    r.begin_turn();
    let apply = r.record_response(
        0,
        TurnResponse::Received { len: 4, utf8: true, parsed: true, text: "Rock".to_string() },
        500,
    );
    assert!(apply);
    assert!(r.is_alive(0));
    assert_eq!(r.errors.len(), 0);
}

#[test]
fn rejected_action_is_recorded() {
    let mut r = MatchRunner::new(settings(10_000, 500), vec![true, true]);
    r.begin_turn();
    r.record_rejection(0, "Rock".to_string());
    assert!(!r.is_alive(0));
    assert!(matches!(r.errors[0], SeatFailure::ActionRejected { seat: 0, turn: 1, .. }));
}

#[test]
fn finish_frees_exactly_the_consumed_resources() {
    let s = settings(10_000, 500);
    let consumed_cpus = s.resources.cpus.clone();
    let consumed_ram = s.resources.total_ram;
    let r = MatchRunner::new(s, vec![true, true]);
    let result = r.finish(vec![3, 1]);
    assert_eq!(result.resources_freed.cpus, consumed_cpus);
    assert_eq!(result.resources_freed.total_ram, consumed_ram);
    assert_eq!(result.results.len(), 2);
    assert_eq!(result.results[0].0.id, 1);
    assert_eq!(result.results[0].1, 3);
    assert_eq!(result.results[1].0.id, 2);
    assert_eq!(result.results[1].1, 1);
}
