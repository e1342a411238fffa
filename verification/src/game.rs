//! The decision at the end of a round: won on an exact guess, lost once the
//! attempt budget is spent, otherwise the game goes on.

use vstd::prelude::*;
use crate::words::wf_word;

verus! {

/// Number of guesses a game allows.
pub const MAX_TRIES: usize = 6;

/// How a round leaves the game.
#[derive(Clone, Copy, PartialEq, Eq, Structural, Debug)]
pub enum RoundOutcome {
    /// The guess equals the secret.
    Won,
    /// The guess differs and the attempt budget is spent.
    Lost,
    /// The guess differs and attempts remain.
    Continue,
}

/// The outcome after a guess, once `guesses_used` guesses (this one included)
/// have been submitted.
pub open spec fn spec_round_outcome(s: Seq<u8>, g: Seq<u8>, guesses_used: int) -> RoundOutcome {
    if g == s {
        RoundOutcome::Won
    } else if guesses_used >= MAX_TRIES {
        RoundOutcome::Lost
    } else {
        RoundOutcome::Continue
    }
}

/// Decide whether the game is over after this guess.
pub fn round_outcome(secret: &Vec<u8>, guess: &Vec<u8>, guesses_used: usize) -> (r: RoundOutcome)
    requires
        wf_word(secret@),
        wf_word(guess@),
    ensures
        r == spec_round_outcome(secret@, guess@, guesses_used as int),
{
    let equal = crate::words::words_equal(guess, secret);
    if equal {
        RoundOutcome::Won
    } else if guesses_used >= MAX_TRIES {
        RoundOutcome::Lost
    } else {
        RoundOutcome::Continue
    }
}

} // verus!
