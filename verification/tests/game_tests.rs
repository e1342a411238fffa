use wordle_core::game::{round_outcome, RoundOutcome, MAX_TRIES};

fn w(s: &str) -> Vec<u8> {
    s.bytes().collect()
}

#[test]
fn exact_guess_wins() {
    assert_eq!(round_outcome(&w("light"), &w("light"), 1), RoundOutcome::Won);
    assert_eq!(
        round_outcome(&w("light"), &w("light"), MAX_TRIES),
        RoundOutcome::Won
    );
}

#[test]
fn budget_spent_loses() {
    assert_eq!(
        round_outcome(&w("light"), &w("might"), MAX_TRIES),
        RoundOutcome::Lost
    );
}

#[test]
fn wrong_guess_with_tries_left_continues() {
    assert_eq!(
        round_outcome(&w("light"), &w("might"), 1),
        RoundOutcome::Continue
    );
    assert_eq!(
        round_outcome(&w("light"), &w("might"), MAX_TRIES - 1),
        RoundOutcome::Continue
    );
}
