use breach_solver::matcher::{advance_state, DaemonMatchState};

fn daemon(tokens: &[&str]) -> Vec<String> {
    tokens.iter().map(|t| t.to_string()).collect()
}

fn run(daemon_tokens: &[&str], buffer: &[&str]) -> DaemonMatchState {
    let d = daemon(daemon_tokens);
    let mut state = DaemonMatchState::Partial(0);
    for token in buffer {
        state = advance_state(&d, state, &token.to_string());
    }
    state
}

#[test]
fn a_matching_token_advances() {
    assert_eq!(run(&["1C", "55", "BD"], &["1C"]), DaemonMatchState::Partial(1));
    assert_eq!(run(&["1C", "55", "BD"], &["1C", "55"]), DaemonMatchState::Partial(2));
}

#[test]
fn the_last_token_completes() {
    assert_eq!(run(&["1C", "55", "BD"], &["1C", "55", "BD"]), DaemonMatchState::Completed);
    assert_eq!(run(&["1C"], &["1C"]), DaemonMatchState::Completed);
}

#[test]
fn a_mismatch_resets_to_nothing() {
    assert_eq!(run(&["1C", "55", "BD"], &["1C", "55", "E9"]), DaemonMatchState::Partial(0));
    // the mismatching token is not taken as a new start
    assert_eq!(run(&["1C", "55"], &["1C", "1C"]), DaemonMatchState::Partial(0));
    assert_eq!(run(&["1C", "55"], &["1C", "1C", "55"]), DaemonMatchState::Partial(0));
}

#[test]
fn an_overlapping_run_is_missed() {
    // "A A B" stands in "A A A B", but the third "A" resets the match
    assert_eq!(run(&["A", "A", "B"], &["A", "A", "A", "B"]), DaemonMatchState::Partial(0));
    assert_eq!(run(&["A", "A", "B"], &["X", "A", "A", "B"]), DaemonMatchState::Completed);
}

#[test]
fn completed_is_never_left() {
    assert_eq!(run(&["1C", "55"], &["1C", "55", "E9", "1C"]), DaemonMatchState::Completed);
}
